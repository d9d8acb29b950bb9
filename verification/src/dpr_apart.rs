use vstd::prelude::*;

use crate::dpr_parse::{
    anchor_at, closed_entry, declared_path, dpr_after_entry, dpr_fragment, dpr_uses,
    flags_with_path, include_entries, lemma_declared_path_bounds, state_with_entry,
    uses_keyword_end, ClauseFlags, DprState, EntryModel,
};
use crate::pas_lex::{
    blank, comment_or_string_end, ident_end, ident_start, ident_text, include_directive,
    lemma_comment_or_string_end_bounds, lemma_ident_end_bounds, lemma_include_directive_bounds,
    COMMA, SEMICOLON,
};
use crate::source_tree::SourceTree;
use crate::uses_include::{
    include_budget, include_path, lemma_budget_decreases, lookup_include, warnings_after_lookup,
};

verus! {

/// The two trees hold the same files under the same paths, with the
/// same texts but for the files `changed`.
pub open spec fn agrees_off(a: SourceTree, b: SourceTree, changed: Set<Seq<char>>) -> bool {
    &&& forall|p: Seq<char>| #[trigger] a.canonical(p) == b.canonical(p)
    &&& forall|p: Seq<char>| #[trigger] a.has_file(p) == b.has_file(p)
    &&& forall|p: Seq<char>|
        !changed.contains(a.canonical(p)) ==> #[trigger] a.contents(p) == b.contents(p)
}

/// Whether the include file that a directive names, and what that file
/// includes, is none of the files `changed`.
pub open spec fn include_avoids(
    tree: SourceTree,
    name: Seq<char>,
    source: Seq<char>,
    stack: Seq<Seq<char>>,
    changed: Set<Seq<char>>,
) -> bool
    decreases include_budget(tree, stack), 0int,
{
    if lookup_include(tree, name, source, stack) is Found {
        let path = include_path(source, name);
        let canonical = tree.canonical(path);
        proof {
            lemma_budget_decreases(tree, name, source, stack);
        }
        !changed.contains(canonical) && fragment_avoids(
            tree,
            tree.files.value(canonical)@,
            0,
            path,
            stack.push(canonical),
            changed,
        )
    } else {
        true
    }
}

/// Whether the reading of a clause from `i` on, where an entry may
/// start, reads none of the files `changed` as an include file.
pub open spec fn fragment_avoids(
    tree: SourceTree,
    b: Seq<u8>,
    i: int,
    source: Seq<char>,
    stack: Seq<Seq<char>>,
    changed: Set<Seq<char>>,
) -> bool
    decreases include_budget(tree, stack), 2 + b.len() - i,
{
    if i < 0 || i >= b.len() {
        true
    } else if blank(b[i]) {
        fragment_avoids(tree, b, i + 1, source, stack, changed)
    } else {
        match include_directive(b, i) {
            Some((name, end)) => {
                proof {
                    lemma_include_directive_bounds(b, i);
                }
                include_avoids(tree, name, source, stack, changed) && fragment_avoids(
                    tree,
                    b,
                    end,
                    source,
                    stack,
                    changed,
                )
            },
            None => match comment_or_string_end(b, i) {
                Some(e) => {
                    proof {
                        lemma_comment_or_string_end_bounds(b, i);
                    }
                    fragment_avoids(tree, b, e, source, stack, changed)
                },
                None => if b[i] == SEMICOLON {
                    true
                } else if !ident_start(b[i]) {
                    fragment_avoids(tree, b, i + 1, source, stack, changed)
                } else {
                    let next = ident_end(b, i + 1);
                    proof {
                        lemma_ident_end_bounds(b, i + 1);
                        lemma_declared_path_bounds(b, next);
                    }
                    after_avoids(tree, b, declared_path(b, next).1, source, stack, changed)
                },
            },
        }
    }
}

/// Whether the reading of a clause from `i` on, behind an entry, reads
/// none of the files `changed` as an include file.
pub open spec fn after_avoids(
    tree: SourceTree,
    b: Seq<u8>,
    i: int,
    source: Seq<char>,
    stack: Seq<Seq<char>>,
    changed: Set<Seq<char>>,
) -> bool
    decreases include_budget(tree, stack), 2 + b.len() - i,
{
    if i < 0 || i >= b.len() {
        true
    } else if b[i] == COMMA {
        fragment_avoids(tree, b, i + 1, source, stack, changed)
    } else if b[i] == SEMICOLON {
        true
    } else {
        match include_directive(b, i) {
            Some((name, end)) => {
                proof {
                    lemma_include_directive_bounds(b, i);
                }
                include_avoids(tree, name, source, stack, changed) && after_avoids(
                    tree,
                    b,
                    end,
                    source,
                    stack,
                    changed,
                )
            },
            None => match comment_or_string_end(b, i) {
                Some(e) => {
                    proof {
                        lemma_comment_or_string_end_bounds(b, i);
                    }
                    after_avoids(tree, b, e, source, stack, changed)
                },
                None => after_avoids(tree, b, i + 1, source, stack, changed),
            },
        }
    }
}

/// Whether the reading of the clause of the project file `b` reads none
/// of the files `changed` as an include file.
pub open spec fn clause_avoids(
    tree: SourceTree,
    path: Seq<char>,
    b: Seq<u8>,
    changed: Set<Seq<char>>,
) -> bool {
    match uses_keyword_end(b, 0) {
        Some(start) => fragment_avoids(tree, b, start, path, seq![tree.canonical(path)], changed),
        None => true,
    }
}

/// An include directive that leads to none of the changed files gives
/// the same in both trees.
pub proof fn apart_include_entries(
    a: SourceTree,
    b: SourceTree,
    changed: Set<Seq<char>>,
    name: Seq<char>,
    anchor: int,
    source: Seq<char>,
    stack: Seq<Seq<char>>,
    warnings: Seq<Seq<char>>,
    flags: ClauseFlags,
)
    requires
        agrees_off(a, b, changed),
        include_avoids(a, name, source, stack, changed),
    ensures
        include_entries(a, name, anchor, source, stack, warnings, flags) == include_entries(
            b,
            name,
            anchor,
            source,
            stack,
            warnings,
            flags,
        ),
    decreases include_budget(a, stack), 0int,
{
    let path = include_path(source, name);
    let canonical = a.canonical(path);
    assert(b.canonical(path) == canonical);
    assert(a.has_file(path) == b.has_file(path));
    if lookup_include(a, name, source, stack) is Found {
        assert(a.contents(path) == b.contents(path));
        lemma_budget_decreases(a, name, source, stack);
        apart_fragment(
            a,
            b,
            changed,
            a.files.value(canonical)@,
            0,
            path,
            stack.push(canonical),
            Some(anchor),
            DprState {
                entries: Seq::empty(),
                warnings: warnings_after_lookup(a, name, source, stack, warnings),
                flags,
            },
        );
    }
}

/// A reading that reads none of the changed files finds the same in
/// both trees.
pub proof fn apart_fragment(
    a: SourceTree,
    b: SourceTree,
    changed: Set<Seq<char>>,
    bytes: Seq<u8>,
    i: int,
    source: Seq<char>,
    stack: Seq<Seq<char>>,
    over: Option<int>,
    st: DprState,
)
    requires
        agrees_off(a, b, changed),
        fragment_avoids(a, bytes, i, source, stack, changed),
    ensures
        dpr_fragment(a, bytes, i, source, stack, over, st) == dpr_fragment(
            b,
            bytes,
            i,
            source,
            stack,
            over,
            st,
        ),
    decreases include_budget(a, stack), 2 + bytes.len() - i,
{
    if 0 <= i < bytes.len() {
        if blank(bytes[i]) {
            apart_fragment(a, b, changed, bytes, i + 1, source, stack, over, st);
        } else {
            lemma_include_directive_bounds(bytes, i);
            lemma_comment_or_string_end_bounds(bytes, i);
            match include_directive(bytes, i) {
                Some((name, end)) => {
                    let got = include_entries(
                        a,
                        name,
                        anchor_at(over, i),
                        source,
                        stack,
                        st.warnings,
                        st.flags,
                    );
                    apart_include_entries(
                        a,
                        b,
                        changed,
                        name,
                        anchor_at(over, i),
                        source,
                        stack,
                        st.warnings,
                        st.flags,
                    );
                    apart_fragment(
                        a,
                        b,
                        changed,
                        bytes,
                        end,
                        source,
                        stack,
                        over,
                        DprState {
                            entries: st.entries + got.entries,
                            warnings: got.warnings,
                            flags: got.flags,
                        },
                    );
                },
                None => match comment_or_string_end(bytes, i) {
                    Some(e) => {
                        apart_fragment(a, b, changed, bytes, e, source, stack, over, st);
                    },
                    None => if bytes[i] == SEMICOLON {
                    } else if !ident_start(bytes[i]) {
                        apart_fragment(a, b, changed, bytes, i + 1, source, stack, over, st);
                    } else {
                        let next = ident_end(bytes, i + 1);
                        let (in_path, after) = declared_path(bytes, next);
                        lemma_ident_end_bounds(bytes, i + 1);
                        lemma_declared_path_bounds(bytes, next);
                        apart_after_entry(
                            a,
                            b,
                            changed,
                            bytes,
                            after,
                            source,
                            stack,
                            over,
                            DprState {
                                entries: st.entries,
                                warnings: st.warnings,
                                flags: flags_with_path(st.flags, in_path),
                            },
                            EntryModel {
                                name: ident_text(bytes, i),
                                in_path,
                                start: anchor_at(over, i),
                                delimiter: None,
                                delimiter_pos: None,
                                from_include: over is Some,
                            },
                            Seq::empty(),
                        );
                    },
                },
            }
        }
    }
}

pub proof fn apart_after_entry(
    a: SourceTree,
    b: SourceTree,
    changed: Set<Seq<char>>,
    bytes: Seq<u8>,
    i: int,
    source: Seq<char>,
    stack: Seq<Seq<char>>,
    over: Option<int>,
    st: DprState,
    open: EntryModel,
    pending: Seq<EntryModel>,
)
    requires
        agrees_off(a, b, changed),
        after_avoids(a, bytes, i, source, stack, changed),
    ensures
        dpr_after_entry(a, bytes, i, source, stack, over, st, open, pending) == dpr_after_entry(
            b,
            bytes,
            i,
            source,
            stack,
            over,
            st,
            open,
            pending,
        ),
    decreases include_budget(a, stack), 2 + bytes.len() - i,
{
    if 0 <= i < bytes.len() {
        if bytes[i] == COMMA {
            apart_fragment(
                a,
                b,
                changed,
                bytes,
                i + 1,
                source,
                stack,
                over,
                state_with_entry(st, closed_entry(open, Some(COMMA), i), pending),
            );
        } else if bytes[i] == SEMICOLON {
        } else {
            lemma_include_directive_bounds(bytes, i);
            lemma_comment_or_string_end_bounds(bytes, i);
            match include_directive(bytes, i) {
                Some((name, end)) => {
                    let got = include_entries(
                        a,
                        name,
                        anchor_at(over, i),
                        source,
                        stack,
                        st.warnings,
                        st.flags,
                    );
                    apart_include_entries(
                        a,
                        b,
                        changed,
                        name,
                        anchor_at(over, i),
                        source,
                        stack,
                        st.warnings,
                        st.flags,
                    );
                    apart_after_entry(
                        a,
                        b,
                        changed,
                        bytes,
                        end,
                        source,
                        stack,
                        over,
                        DprState { entries: st.entries, warnings: got.warnings, flags: got.flags },
                        open,
                        pending + got.entries,
                    );
                },
                None => match comment_or_string_end(bytes, i) {
                    Some(e) => {
                        apart_after_entry(
                            a,
                            b,
                            changed,
                            bytes,
                            e,
                            source,
                            stack,
                            over,
                            st,
                            open,
                            pending,
                        );
                    },
                    None => {
                        apart_after_entry(
                            a,
                            b,
                            changed,
                            bytes,
                            i + 1,
                            source,
                            stack,
                            over,
                            st,
                            open,
                            pending,
                        );
                    },
                },
            }
        }
    }
}

/// The clause of a project file whose reading reads none of the changed
/// files is read alike in both trees.
pub proof fn lemma_clause_is_read_alike(
    a: SourceTree,
    b: SourceTree,
    changed: Set<Seq<char>>,
    path: Seq<char>,
    bytes: Seq<u8>,
    warnings: Seq<Seq<char>>,
)
    requires
        agrees_off(a, b, changed),
        clause_avoids(a, path, bytes, changed),
    ensures
        dpr_uses(a, path, bytes, warnings) == dpr_uses(b, path, bytes, warnings),
{
    assert(b.canonical(path) == a.canonical(path));
    match uses_keyword_end(bytes, 0) {
        Some(start) => {
            apart_fragment(
                a,
                b,
                changed,
                bytes,
                start,
                path,
                seq![a.canonical(path)],
                None,
                DprState {
                    entries: Seq::empty(),
                    warnings,
                    flags: ClauseFlags {
                        has_backslash: false,
                        has_slash: false,
                        include_semicolon: false,
                    },
                },
            );
        },
        None => {},
    }
}

} // verus!
