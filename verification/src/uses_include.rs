use vstd::prelude::*;

use crate::pas_lex::{
    include_directive, parse_include_directive, read_string_literal, string_literal,
};
use crate::paths::{absolute, joined, parent_of, path_is_absolute, path_join, path_parent};
use crate::source_tree::SourceTree;
use crate::text::{concat, concat_all, copy_text};
use crate::text_map::{contains_text, lemma_first_from, push_text};

verus! {

/// The path that an include directive in the file `source` names: the name
/// itself where it is absolute or `source` has no directory, else the name
/// joined onto the directory of `source`.
pub open spec fn include_path(source: Seq<char>, name: Seq<char>) -> Seq<char> {
    if absolute(name) {
        name
    } else {
        match parent_of(source) {
            Some(dir) => joined(dir, name),
            None => name,
        }
    }
}

/// The path that an include directive in the file `source_path` names.
pub fn resolve_include_path(source_path: &str, name: &str) -> (r: String)
    ensures
        r@ == include_path(source_path@, name@),
{
    if path_is_absolute(name) {
        copy_text(name)
    } else {
        match path_parent(source_path) {
            Some(dir) => path_join(dir.as_str(), name),
            None => copy_text(name),
        }
    }
}

/// What became of an include directive.
pub enum IncludeLookup {
    /// The file is being read already: it includes itself.
    Cycle,
    /// The tree holds no such file.
    Unreadable,
    /// The file stands in the tree.
    Found,
}

/// An include file that was found: its path as the directive gives it, its
/// canonical path, and its offset among the files of the tree.
pub struct IncludeFile {
    pub path: String,
    pub canonical: String,
    pub index: usize,
}

/// What becomes of the directive that names `name` in the file `source`
/// while the files of `stack` are being read.
pub open spec fn lookup_include(
    tree: SourceTree,
    name: Seq<char>,
    source: Seq<char>,
    stack: Seq<Seq<char>>,
) -> IncludeLookup {
    let path = include_path(source, name);
    if stack.contains(tree.canonical(path)) {
        IncludeLookup::Cycle
    } else if !tree.has_file(path) {
        IncludeLookup::Unreadable
    } else {
        IncludeLookup::Found
    }
}

pub open spec fn cycle_warning(path: Seq<char>, source: Seq<char>) -> Seq<char> {
    concat_all(
        seq!["warning: include cycle detected for "@, path, " (from "@, source, ")"@],
    )
}

pub open spec fn unreadable_warning(path: Seq<char>, source: Seq<char>) -> Seq<char> {
    concat_all(seq!["warning: failed to read include "@, path, " referenced by "@, source])
}

/// The warnings after the directive was looked up: one more for a cycle or a
/// file that cannot be read.
pub open spec fn warnings_after_lookup(
    tree: SourceTree,
    name: Seq<char>,
    source: Seq<char>,
    stack: Seq<Seq<char>>,
    warnings: Seq<Seq<char>>,
) -> Seq<Seq<char>> {
    let path = include_path(source, name);
    match lookup_include(tree, name, source, stack) {
        IncludeLookup::Cycle => warnings.push(cycle_warning(path, source)),
        IncludeLookup::Unreadable => warnings.push(unreadable_warning(path, source)),
        IncludeLookup::Found => warnings,
    }
}

/// How many of the first `n` keys do not stand on the stack.
pub open spec fn free_count(keys: Seq<Seq<char>>, stack: Seq<Seq<char>>, n: int) -> nat
    decreases n,
{
    if n <= 0 {
        0
    } else {
        free_count(keys, stack, n - 1) + if stack.contains(keys[n - 1]) {
            0nat
        } else {
            1nat
        }
    }
}

/// How many files of the tree are not being read: a bound on how deep
/// includes can still nest.
pub open spec fn include_budget(tree: SourceTree, stack: Seq<Seq<char>>) -> nat {
    free_count(tree.files.key_texts(), stack, tree.files.key_texts().len() as int)
}

pub proof fn lemma_free_count_push(
    keys: Seq<Seq<char>>,
    stack: Seq<Seq<char>>,
    key: Seq<char>,
    at: int,
    n: int,
)
    requires
        0 <= at < keys.len(),
        keys[at] == key,
        !stack.contains(key),
        0 <= n <= keys.len(),
    ensures
        free_count(keys, stack.push(key), n) <= free_count(keys, stack, n),
        at < n ==> free_count(keys, stack.push(key), n) < free_count(keys, stack, n),
    decreases n,
{
    if n > 0 {
        lemma_free_count_push(keys, stack, key, at, n - 1);
        let more = stack.push(key);
        if stack.contains(keys[n - 1]) {
            let j = choose|j: int| 0 <= j < stack.len() && stack[j] == keys[n - 1];
            assert(more[j] == keys[n - 1]);
        }
        if n - 1 == at {
            assert(more[stack.len() as int] == key);
        }
    }
}

/// Reading an include file that was found leaves less room for nesting.
pub proof fn lemma_budget_decreases(
    tree: SourceTree,
    name: Seq<char>,
    source: Seq<char>,
    stack: Seq<Seq<char>>,
)
    requires
        lookup_include(tree, name, source, stack) is Found,
    ensures
        include_budget(tree, stack.push(tree.canonical(include_path(source, name))))
            < include_budget(tree, stack),
{
    let keys = tree.files.key_texts();
    let c = tree.canonical(include_path(source, name));
    lemma_first_from(keys, c, 0);
    let at = tree.files.index_of(c).unwrap();
    lemma_free_count_push(keys, stack, c, at, keys.len() as int);
}

/// Looks up the file that an include directive names. A file that is being
/// read already, or that the tree does not hold, gives a warning and `None`.
pub fn with_include_bytes(
    tree: &SourceTree,
    include_name: &str,
    source_path: &str,
    warnings: &mut Vec<String>,
    include_stack: &Vec<String>,
) -> (r: Option<IncludeFile>)
    requires
        tree.wf(),
    ensures
        r is Some <==> lookup_include(
            *tree,
            include_name@,
            source_path@,
            include_stack.deep_view(),
        ) is Found,
        r matches Some(f) ==> f.path@ == include_path(source_path@, include_name@)
            && f.canonical@ == tree.canonical(f.path@) && f.index < tree.files.values.len()
            && tree.files.index_of(f.canonical@) == Some(f.index as int),
        final(warnings).deep_view() == warnings_after_lookup(
            *tree,
            include_name@,
            source_path@,
            include_stack.deep_view(),
            old(warnings).deep_view(),
        ),
{
    let path = resolve_include_path(source_path, include_name);
    let canonical = tree.canonicalize(path.as_str());
    if contains_text(include_stack, canonical.as_str()) {
        let parts = vec![
            "warning: include cycle detected for ",
            path.as_str(),
            " (from ",
            source_path,
            ")",
        ];
        assert(parts.deep_view() =~= seq![
            "warning: include cycle detected for "@,
            path@,
            " (from "@,
            source_path@,
            ")"@,
        ]);
        push_text(warnings, concat(&parts));
        return None;
    }
    match tree.files.find(canonical.as_str()) {
        Some(index) => Some(IncludeFile { path, canonical, index }),
        None => {
            let parts = vec![
                "warning: failed to read include ",
                path.as_str(),
                " referenced by ",
                source_path,
            ];
            assert(parts.deep_view() =~= seq![
                "warning: failed to read include "@,
                path@,
                " referenced by "@,
                source_path@,
            ]);
            push_text(warnings, concat(&parts));
            None
        },
    }
}

/// The names with those that the offset `i` gives: that of the include
/// directive that may open there, and the text of the literal that may.
pub open spec fn with_references_at(b: Seq<u8>, i: int, found: Seq<Seq<char>>) -> Seq<Seq<char>> {
    let named = match include_directive(b, i) {
        Some((name, _)) => found.push(name),
        None => found,
    };
    match string_literal(b, i) {
        Some((text, _)) => named.push(text),
        None => named,
    }
}

pub open spec fn references_from(b: Seq<u8>, i: int, found: Seq<Seq<char>>) -> Seq<Seq<char>>
    decreases b.len() - i,
{
    if i < 0 || i >= b.len() {
        found
    } else {
        references_from(b, i + 1, with_references_at(b, i, found))
    }
}

/// Every name by which the bytes may refer to another file: the name of
/// each include directive and the text of each quoted literal, wherever
/// in the bytes one opens, in the order of the offsets.
pub open spec fn references(b: Seq<u8>) -> Seq<Seq<char>> {
    references_from(b, 0, Seq::empty())
}

/// Lists the names by which the bytes may refer to other files, so that
/// those files can be put into the tree before the bytes are read.
pub fn referenced_names(bytes: &[u8]) -> (r: Vec<String>)
    ensures
        r.deep_view() == references(bytes@),
{
    let mut found: Vec<String> = Vec::new();
    assert(found.deep_view() =~= Seq::<Seq<char>>::empty());
    let mut i: usize = 0;
    while i < bytes.len()
        invariant
            i <= bytes.len(),
            references_from(bytes@, i as int, found.deep_view()) == references(bytes@),
        decreases bytes.len() - i,
    {
        match parse_include_directive(bytes, i) {
            Some((name, _)) => {
                push_text(&mut found, name);
            },
            None => {},
        }
        match read_string_literal(bytes, i) {
            Some((text, _)) => {
                push_text(&mut found, text);
            },
            None => {},
        }
        i += 1;
    }
    found
}

} // verus!
