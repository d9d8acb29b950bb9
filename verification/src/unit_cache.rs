use vstd::prelude::*;

use crate::pas_lex::{
    blank, byte_is, comment_or_string_end, has_byte, ident_end, ident_start, ident_text,
    include_directive, is_blank, is_ident_start, lemma_comment_or_string_end_bounds,
    lemma_ident_end_bounds, lemma_include_directive_bounds, lemma_string_end_bounds,
    lemma_ws_comments_end_bounds, parse_include_directive, read_ident, scan_ident,
    skip_comment_or_string, skip_string, skip_ws_and_comments, string_end, ws_comments_end, COMMA,
    PAREN_OPEN, QUOTE, SEMICOLON,
};
use crate::paths::{path_file_stem, stem_of};
use crate::source_tree::SourceTree;
use crate::text::{
    concat, concat_all, copy_text, is_keyword, lower_text, matches_keyword, option_text, to_lower,
    trim, trimmed,
};
use crate::text_map::{append_texts, copy_texts, lemma_first_from, pop_text, push_text, TextMap};
use crate::uses_include::{
    include_budget, include_path, lemma_budget_decreases, lookup_include, warnings_after_lookup,
    with_include_bytes, IncludeFile,
};

verus! {

/// The name that a `unit` statement at or after `i` declares: the first
/// word `unit`, outside comments and literals, that an identifier follows.
pub open spec fn unit_name_from(b: Seq<u8>, i: int) -> Option<Seq<char>>
    decreases b.len() - i,
{
    if i < 0 || i >= b.len() {
        None
    } else {
        match comment_or_string_end(b, i) {
            Some(e) => {
                proof {
                    lemma_comment_or_string_end_bounds(b, i);
                }
                unit_name_from(b, e)
            },
            None => if ident_start(b[i]) {
                let next = ident_end(b, i + 1);
                proof {
                    lemma_ident_end_bounds(b, i + 1);
                }
                if is_keyword(b.subrange(i, next), "unit"@) && unit_name_after(b, next) is Some {
                    unit_name_after(b, next)
                } else {
                    unit_name_from(b, next)
                }
            } else {
                unit_name_from(b, i + 1)
            },
        }
    }
}

/// The identifier that follows the blanks and comments at `i`.
pub open spec fn unit_name_after(b: Seq<u8>, i: int) -> Option<Seq<char>> {
    let k = ws_comments_end(b, i);
    if 0 <= k < b.len() && ident_start(b[k]) {
        Some(ident_text(b, k))
    } else {
        None
    }
}

/// The name of the unit that `b` declares.
pub open spec fn unit_name(b: Seq<u8>) -> Option<Seq<char>> {
    unit_name_from(b, 0)
}

fn parse_unit_name_after(bytes: &[u8], i: usize) -> (r: Option<String>)
    requires
        i <= bytes.len(),
    ensures
        option_text(r) == unit_name_after(bytes@, i as int),
{
    let k = skip_ws_and_comments(bytes, i);
    if k >= bytes.len() || !is_ident_start(bytes[k]) {
        return None;
    }
    let (name, _) = read_ident(bytes, k);
    Some(name)
}

/// Reads the name of the unit that `bytes` declares.
pub fn parse_unit_name(bytes: &[u8]) -> (r: Option<String>)
    ensures
        option_text(r) == unit_name(bytes@),
{
    let mut i: usize = 0;
    while i < bytes.len()
        invariant
            i <= bytes.len(),
            unit_name_from(bytes@, i as int) == unit_name(bytes@),
        decreases bytes.len() - i,
    {
        match skip_comment_or_string(bytes, i) {
            Some(e) => {
                i = e;
            },
            None => {
                if is_ident_start(bytes[i]) {
                    let next = scan_ident(bytes, i);
                    if matches_keyword(bytes, i, next, "unit") {
                        match parse_unit_name_after(bytes, next) {
                            Some(name) => {
                                return Some(name);
                            },
                            None => {},
                        }
                    }
                    i = next;
                } else {
                    i += 1;
                }
            },
        }
    }
    None
}

/// The names read so far and the warnings given so far.
pub struct UsesState {
    pub names: Seq<Seq<char>>,
    pub warnings: Seq<Seq<char>>,
}

/// Where the reading of a uses clause stopped: the offset, whether the `;`
/// that closes the clause was met, and what was read.
pub struct UsesEnd {
    pub pos: int,
    pub closed: bool,
    pub state: UsesState,
}

/// Where the path of an entry ends that may follow the name that ends at
/// `i`: past the blanks and comments, and past `in` and its literal.
pub open spec fn after_unit_in_path(b: Seq<u8>, i: int) -> int {
    let j = ws_comments_end(b, i);
    if 0 <= j < b.len() && ident_start(b[j]) && is_keyword(
        b.subrange(j, ident_end(b, j + 1)),
        "in"@,
    ) {
        let k = ws_comments_end(b, ident_end(b, j + 1));
        if has_byte(b, k, QUOTE) {
            string_end(b, k + 1)
        } else {
            k
        }
    } else {
        j
    }
}

pub proof fn lemma_after_unit_in_path_bounds(b: Seq<u8>, i: int)
    requires
        0 <= i <= b.len(),
    ensures
        i <= after_unit_in_path(b, i) <= b.len(),
{
    lemma_ws_comments_end_bounds(b, i);
    let j = ws_comments_end(b, i);
    if j < b.len() {
        lemma_ident_end_bounds(b, j + 1);
        lemma_ws_comments_end_bounds(b, ident_end(b, j + 1));
        let k = ws_comments_end(b, ident_end(b, j + 1));
        if k < b.len() {
            lemma_string_end_bounds(b, k + 1);
        }
    }
}

/// The names that the include file named by a directive gives, read on
/// their own, and the warnings after it was read.
pub open spec fn include_names(
    tree: SourceTree,
    name: Seq<char>,
    source: Seq<char>,
    stack: Seq<Seq<char>>,
    warnings: Seq<Seq<char>>,
) -> UsesState
    decreases include_budget(tree, stack), 0int,
{
    let after = warnings_after_lookup(tree, name, source, stack, warnings);
    if lookup_include(tree, name, source, stack) is Found {
        let path = include_path(source, name);
        let canonical = tree.canonical(path);
        proof {
            lemma_budget_decreases(tree, name, source, stack);
        }
        uses_fragment(
            tree,
            tree.files.value(canonical)@,
            0,
            path,
            stack.push(canonical),
            UsesState { names: Seq::empty(), warnings: after },
        ).state
    } else {
        UsesState { names: Seq::empty(), warnings: after }
    }
}

/// The state after an include file gave its names: the names so far, then
/// those of the file.
pub open spec fn with_names(st: UsesState, got: UsesState) -> UsesState {
    UsesState { names: st.names + got.names, warnings: got.warnings }
}

/// Reads the entries of a uses clause from `i` on, where an entry may
/// start. Blanks, comments and literals are passed over; an include
/// directive gives the names of its file; `;` closes the clause; an
/// identifier is one more name; any other byte is passed over.
pub open spec fn uses_fragment(
    tree: SourceTree,
    b: Seq<u8>,
    i: int,
    source: Seq<char>,
    stack: Seq<Seq<char>>,
    st: UsesState,
) -> UsesEnd
    decreases include_budget(tree, stack), 2 + b.len() - i,
{
    if i < 0 || i >= b.len() {
        UsesEnd { pos: i, closed: false, state: st }
    } else if blank(b[i]) {
        uses_fragment(tree, b, i + 1, source, stack, st)
    } else {
        match include_directive(b, i) {
            Some((name, end)) => {
                proof {
                    lemma_include_directive_bounds(b, i);
                }
                uses_fragment(
                    tree,
                    b,
                    end,
                    source,
                    stack,
                    with_names(st, include_names(tree, name, source, stack, st.warnings)),
                )
            },
            None => match comment_or_string_end(b, i) {
                Some(e) => {
                    proof {
                        lemma_comment_or_string_end_bounds(b, i);
                    }
                    uses_fragment(tree, b, e, source, stack, st)
                },
                None => if b[i] == SEMICOLON {
                    UsesEnd { pos: i + 1, closed: true, state: st }
                } else if !ident_start(b[i]) {
                    uses_fragment(tree, b, i + 1, source, stack, st)
                } else {
                    let next = ident_end(b, i + 1);
                    proof {
                        lemma_ident_end_bounds(b, i + 1);
                        lemma_after_unit_in_path_bounds(b, next);
                    }
                    uses_after_entry(
                        tree,
                        b,
                        after_unit_in_path(b, next),
                        source,
                        stack,
                        UsesState { names: st.names.push(ident_text(b, i)), warnings: st.warnings },
                    )
                },
            },
        }
    }
}

/// Reads on from `i`, behind an entry, to the `,` or `;` that ends it;
/// include directives met on the way give the names of their files.
pub open spec fn uses_after_entry(
    tree: SourceTree,
    b: Seq<u8>,
    i: int,
    source: Seq<char>,
    stack: Seq<Seq<char>>,
    st: UsesState,
) -> UsesEnd
    decreases include_budget(tree, stack), 2 + b.len() - i,
{
    if i < 0 || i >= b.len() {
        UsesEnd { pos: i, closed: false, state: st }
    } else if b[i] == COMMA {
        uses_fragment(tree, b, i + 1, source, stack, st)
    } else if b[i] == SEMICOLON {
        UsesEnd { pos: i + 1, closed: true, state: st }
    } else {
        match include_directive(b, i) {
            Some((name, end)) => {
                proof {
                    lemma_include_directive_bounds(b, i);
                }
                uses_after_entry(
                    tree,
                    b,
                    end,
                    source,
                    stack,
                    with_names(st, include_names(tree, name, source, stack, st.warnings)),
                )
            },
            None => match comment_or_string_end(b, i) {
                Some(e) => {
                    proof {
                        lemma_comment_or_string_end_bounds(b, i);
                    }
                    uses_after_entry(tree, b, e, source, stack, st)
                },
                None => uses_after_entry(tree, b, i + 1, source, stack, st),
            },
        }
    }
}

/// An include directive that names a file which is being read gives no
/// names, and one warning of the cycle.
pub proof fn lemma_include_cycle_ends_with_warning(
    tree: SourceTree,
    name: Seq<char>,
    source: Seq<char>,
    stack: Seq<Seq<char>>,
    warnings: Seq<Seq<char>>,
)
    requires
        stack.contains(tree.canonical(include_path(source, name))),
    ensures
        include_names(tree, name, source, stack, warnings) == (UsesState {
            names: Seq::empty(),
            warnings: warnings.push(
                crate::uses_include::cycle_warning(include_path(source, name), source),
            ),
        }),
{
}

/// While an include file is read, a directive in it that names the file
/// itself gives no names, and one warning of the cycle.
pub proof fn lemma_self_include_ends_with_warning(
    tree: SourceTree,
    name: Seq<char>,
    source: Seq<char>,
    stack: Seq<Seq<char>>,
    inner: Seq<char>,
    warnings: Seq<Seq<char>>,
)
    requires
        lookup_include(tree, name, source, stack) is Found,
        tree.canonical(include_path(include_path(source, name), inner)) == tree.canonical(
            include_path(source, name),
        ),
    ensures
        include_names(
            tree,
            inner,
            include_path(source, name),
            stack.push(tree.canonical(include_path(source, name))),
            warnings,
        ) == (UsesState {
            names: Seq::empty(),
            warnings: warnings.push(
                crate::uses_include::cycle_warning(
                    include_path(include_path(source, name), inner),
                    include_path(source, name),
                ),
            ),
        }),
{
    let path = include_path(source, name);
    let canonical = tree.canonical(path);
    let pushed = stack.push(canonical);
    assert(pushed[stack.len() as int] == canonical);
    lemma_include_cycle_ends_with_warning(tree, inner, path, pushed, warnings);
}

/// Reading a uses clause moves forward and stays inside the buffer.
pub proof fn lemma_uses_fragment_bounds(
    tree: SourceTree,
    b: Seq<u8>,
    i: int,
    source: Seq<char>,
    stack: Seq<Seq<char>>,
    st: UsesState,
)
    requires
        0 <= i <= b.len(),
    ensures
        i <= uses_fragment(tree, b, i, source, stack, st).pos <= b.len(),
    decreases b.len() - i, 1int,
{
    if i < b.len() && !blank(b[i]) {
        lemma_include_directive_bounds(b, i);
        lemma_comment_or_string_end_bounds(b, i);
        match include_directive(b, i) {
            Some((name, end)) => {
                lemma_uses_fragment_bounds(
                    tree,
                    b,
                    end,
                    source,
                    stack,
                    with_names(st, include_names(tree, name, source, stack, st.warnings)),
                );
            },
            None => match comment_or_string_end(b, i) {
                Some(e) => {
                    lemma_uses_fragment_bounds(tree, b, e, source, stack, st);
                },
                None => if b[i] == SEMICOLON {
                } else if !ident_start(b[i]) {
                    lemma_uses_fragment_bounds(tree, b, i + 1, source, stack, st);
                } else {
                    let next = ident_end(b, i + 1);
                    lemma_ident_end_bounds(b, i + 1);
                    lemma_after_unit_in_path_bounds(b, next);
                    lemma_uses_after_entry_bounds(
                        tree,
                        b,
                        after_unit_in_path(b, next),
                        source,
                        stack,
                        UsesState { names: st.names.push(ident_text(b, i)), warnings: st.warnings },
                    );
                },
            },
        }
    } else if i < b.len() {
        lemma_uses_fragment_bounds(tree, b, i + 1, source, stack, st);
    }
}

pub proof fn lemma_uses_after_entry_bounds(
    tree: SourceTree,
    b: Seq<u8>,
    i: int,
    source: Seq<char>,
    stack: Seq<Seq<char>>,
    st: UsesState,
)
    requires
        0 <= i <= b.len(),
    ensures
        i <= uses_after_entry(tree, b, i, source, stack, st).pos <= b.len(),
    decreases b.len() - i, 1int,
{
    if i < b.len() {
        if b[i] == COMMA {
            lemma_uses_fragment_bounds(tree, b, i + 1, source, stack, st);
        } else if b[i] == SEMICOLON {
        } else {
            lemma_include_directive_bounds(b, i);
            lemma_comment_or_string_end_bounds(b, i);
            match include_directive(b, i) {
                Some((name, end)) => {
                    lemma_uses_after_entry_bounds(
                        tree,
                        b,
                        end,
                        source,
                        stack,
                        with_names(st, include_names(tree, name, source, stack, st.warnings)),
                    );
                },
                None => match comment_or_string_end(b, i) {
                    Some(e) => {
                        lemma_uses_after_entry_bounds(tree, b, e, source, stack, st);
                    },
                    None => {
                        lemma_uses_after_entry_bounds(tree, b, i + 1, source, stack, st);
                    },
                },
            }
        }
    }
}

/// The names that the uses clauses of a unit give, read from `i` on. A
/// clause counts once `interface` or `implementation` was met.
pub open spec fn unit_uses_from(
    tree: SourceTree,
    b: Seq<u8>,
    i: int,
    path: Seq<char>,
    in_section: bool,
    st: UsesState,
) -> UsesState
    decreases b.len() - i,
{
    if i < 0 || i >= b.len() {
        st
    } else {
        match comment_or_string_end(b, i) {
            Some(e) => {
                proof {
                    lemma_comment_or_string_end_bounds(b, i);
                }
                unit_uses_from(tree, b, e, path, in_section, st)
            },
            None => if ident_start(b[i]) {
                let next = ident_end(b, i + 1);
                let token = b.subrange(i, next);
                proof {
                    lemma_ident_end_bounds(b, i + 1);
                }
                if is_keyword(token, "interface"@) || is_keyword(token, "implementation"@) {
                    unit_uses_from(tree, b, next, path, true, st)
                } else if is_keyword(token, "uses"@) && in_section {
                    let r = uses_fragment(tree, b, next, path, seq![tree.canonical(path)], st);
                    proof {
                        lemma_uses_fragment_bounds(
                            tree,
                            b,
                            next,
                            path,
                            seq![tree.canonical(path)],
                            st,
                        );
                    }
                    unit_uses_from(tree, b, r.pos, path, in_section, r.state)
                } else {
                    unit_uses_from(tree, b, next, path, in_section, st)
                }
            } else {
                unit_uses_from(tree, b, i + 1, path, in_section, st)
            },
        }
    }
}

/// The names that the unit `b`, read from the file `path`, uses, in the
/// order in which its interface and implementation name them, and the
/// warnings after it was read.
pub open spec fn unit_uses(
    tree: SourceTree,
    path: Seq<char>,
    b: Seq<u8>,
    warnings: Seq<Seq<char>>,
) -> UsesState {
    unit_uses_from(tree, b, 0, path, false, UsesState { names: Seq::empty(), warnings })
}

/// What the two vectors hold, as a state of the reading.
pub open spec fn uses_state(deps: Vec<String>, warnings: Vec<String>) -> UsesState {
    UsesState { names: deps.deep_view(), warnings: warnings.deep_view() }
}

fn parse_include_entries_for_unit(
    tree: &SourceTree,
    include_name: &str,
    source_path: &str,
    warnings: &mut Vec<String>,
    include_stack: &mut Vec<String>,
) -> (r: Vec<String>)
    requires
        tree.wf(),
    ensures
        final(include_stack).deep_view() == old(include_stack).deep_view(),
        uses_state(r, *final(warnings)) == include_names(
            *tree,
            include_name@,
            source_path@,
            old(include_stack).deep_view(),
            old(warnings).deep_view(),
        ),
    decreases include_budget(*tree, old(include_stack).deep_view()), 0int,
{
    let ghost stack = include_stack.deep_view();
    match with_include_bytes(tree, include_name, source_path, warnings, include_stack) {
        None => {
            let r: Vec<String> = Vec::new();
            assert(r.deep_view() =~= Seq::<Seq<char>>::empty());
            r
        },
        Some(file) => {
            let mut entries: Vec<String> = Vec::new();
            assert(entries.deep_view() =~= Seq::<Seq<char>>::empty());
            let bytes = &tree.files.values[file.index];
            let IncludeFile { path, canonical, index } = file;
            proof {
                lemma_budget_decreases(*tree, include_name@, source_path@, stack);
            }
            push_text(include_stack, canonical);
            let _ = parse_uses_fragment_with_includes(
                tree,
                bytes.as_slice(),
                0,
                path.as_str(),
                warnings,
                &mut entries,
                include_stack,
            );
            assert(include_stack.deep_view().len() == include_stack.len());
            pop_text(include_stack);
            assert(include_stack.deep_view() =~= stack);
            entries
        },
    }
}

fn skip_ws_comments_and_includes(
    tree: &SourceTree,
    bytes: &[u8],
    start: usize,
    source_path: &str,
    warnings: &mut Vec<String>,
    deps: &mut Vec<String>,
    include_stack: &mut Vec<String>,
) -> (r: usize)
    requires
        tree.wf(),
        start <= bytes.len(),
    ensures
        start <= r <= bytes.len(),
        final(include_stack).deep_view() == old(include_stack).deep_view(),
        uses_fragment(
            *tree,
            bytes@,
            r as int,
            source_path@,
            old(include_stack).deep_view(),
            uses_state(*final(deps), *final(warnings)),
        ) == uses_fragment(
            *tree,
            bytes@,
            start as int,
            source_path@,
            old(include_stack).deep_view(),
            uses_state(*old(deps), *old(warnings)),
        ),
        r < bytes.len() ==> !blank(bytes@[r as int]) && include_directive(bytes@, r as int) is None
            && comment_or_string_end(bytes@, r as int) is None && bytes@[r as int] != PAREN_OPEN,
    decreases include_budget(*tree, old(include_stack).deep_view()), 1 + bytes.len() - start,
{
    let ghost stack = include_stack.deep_view();
    let ghost goal = uses_fragment(
        *tree,
        bytes@,
        start as int,
        source_path@,
        stack,
        uses_state(*deps, *warnings),
    );
    let mut i = start;
    while i < bytes.len()
        invariant
            start <= i <= bytes.len(),
            include_stack.deep_view() == stack,
            uses_fragment(
                *tree,
                bytes@,
                i as int,
                source_path@,
                stack,
                uses_state(*deps, *warnings),
            ) == goal,
        decreases bytes.len() - i,
    {
        if is_blank(bytes[i]) {
            i += 1;
            continue ;
        }
        if bytes[i] == crate::pas_lex::BRACE_OPEN || bytes[i] == PAREN_OPEN {
            match parse_include_directive(bytes, i) {
                Some((name, end)) => {
                    let entries = parse_include_entries_for_unit(
                        tree,
                        name.as_str(),
                        source_path,
                        warnings,
                        include_stack,
                    );
                    append_texts(deps, entries);
                    i = end;
                    continue ;
                },
                None => {},
            }
        }
        match skip_comment_or_string(bytes, i) {
            Some(e) => {
                i = e;
            },
            None => {
                if bytes[i] == PAREN_OPEN {
                    i += 1;
                } else {
                    break ;
                }
            },
        }
    }
    i
}

fn scan_to_delimiter_with_includes(
    tree: &SourceTree,
    bytes: &[u8],
    start: usize,
    source_path: &str,
    warnings: &mut Vec<String>,
    deps: &mut Vec<String>,
    include_stack: &mut Vec<String>,
) -> (r: (usize, Option<u8>))
    requires
        tree.wf(),
        start <= bytes.len(),
    ensures
        start <= r.0 <= bytes.len(),
        final(include_stack).deep_view() == old(include_stack).deep_view(),
        r.1 matches Some(c) ==> r.0 < bytes.len() && bytes@[r.0 as int] == c && (c == COMMA || c
            == SEMICOLON),
        r.1 is None ==> r.0 == bytes.len(),
        uses_after_entry(
            *tree,
            bytes@,
            r.0 as int,
            source_path@,
            old(include_stack).deep_view(),
            uses_state(*final(deps), *final(warnings)),
        ) == uses_after_entry(
            *tree,
            bytes@,
            start as int,
            source_path@,
            old(include_stack).deep_view(),
            uses_state(*old(deps), *old(warnings)),
        ),
    decreases include_budget(*tree, old(include_stack).deep_view()), 1 + bytes.len() - start,
{
    let ghost stack = include_stack.deep_view();
    let ghost goal = uses_after_entry(
        *tree,
        bytes@,
        start as int,
        source_path@,
        stack,
        uses_state(*deps, *warnings),
    );
    let mut i = start;
    while i < bytes.len()
        invariant
            start <= i <= bytes.len(),
            include_stack.deep_view() == stack,
            uses_after_entry(
                *tree,
                bytes@,
                i as int,
                source_path@,
                stack,
                uses_state(*deps, *warnings),
            ) == goal,
        decreases bytes.len() - i,
    {
        if bytes[i] == COMMA || bytes[i] == SEMICOLON {
            return (i, Some(bytes[i]));
        }
        if bytes[i] == crate::pas_lex::BRACE_OPEN || bytes[i] == PAREN_OPEN {
            match parse_include_directive(bytes, i) {
                Some((name, end)) => {
                    let entries = parse_include_entries_for_unit(
                        tree,
                        name.as_str(),
                        source_path,
                        warnings,
                        include_stack,
                    );
                    append_texts(deps, entries);
                    i = end;
                    continue ;
                },
                None => {},
            }
        }
        match skip_comment_or_string(bytes, i) {
            Some(e) => {
                i = e;
            },
            None => {
                i += 1;
            },
        }
    }
    (i, None)
}

/// Passes over the `in '...'` that may follow the name of an entry.
fn skip_unit_in_path(bytes: &[u8], i: usize) -> (r: usize)
    requires
        i <= bytes.len(),
    ensures
        r == after_unit_in_path(bytes@, i as int),
        i <= r <= bytes.len(),
{
    proof {
        lemma_after_unit_in_path_bounds(bytes@, i as int);
    }
    let j = skip_ws_and_comments(bytes, i);
    match peek_ident(bytes, j) {
        Some(token_end) => {
            if matches_keyword(bytes, j, token_end, "in") {
                let k = skip_ws_and_comments(bytes, token_end);
                if byte_is(bytes, k, QUOTE) {
                    skip_string(bytes, k + 1)
                } else {
                    k
                }
            } else {
                j
            }
        },
        None => j,
    }
}

/// The end of the identifier at `i`, if one starts there.
pub fn peek_ident(bytes: &[u8], i: usize) -> (r: Option<usize>)
    ensures
        r matches Some(e) ==> i < bytes.len() && ident_start(bytes@[i as int]) && e == ident_end(
            bytes@,
            i + 1,
        ) && i < e <= bytes.len(),
        r is None ==> !(i < bytes.len() && ident_start(bytes@[i as int])),
{
    if i < bytes.len() && is_ident_start(bytes[i]) {
        Some(scan_ident(bytes, i))
    } else {
        None
    }
}

fn parse_uses_fragment_with_includes(
    tree: &SourceTree,
    bytes: &[u8],
    start: usize,
    source_path: &str,
    warnings: &mut Vec<String>,
    deps: &mut Vec<String>,
    include_stack: &mut Vec<String>,
) -> (r: (usize, bool))
    requires
        tree.wf(),
        start <= bytes.len(),
    ensures
        start <= r.0 <= bytes.len(),
        final(include_stack).deep_view() == old(include_stack).deep_view(),
        (UsesEnd {
            pos: r.0 as int,
            closed: r.1,
            state: uses_state(*final(deps), *final(warnings)),
        }) == uses_fragment(
            *tree,
            bytes@,
            start as int,
            source_path@,
            old(include_stack).deep_view(),
            uses_state(*old(deps), *old(warnings)),
        ),
    decreases include_budget(*tree, old(include_stack).deep_view()), 2 + bytes.len() - start,
{
    let ghost stack = include_stack.deep_view();
    let ghost goal = uses_fragment(
        *tree,
        bytes@,
        start as int,
        source_path@,
        stack,
        uses_state(*deps, *warnings),
    );
    let mut i = start;
    loop
        invariant
            start <= i <= bytes.len(),
            include_stack.deep_view() == stack,
            uses_fragment(
                *tree,
                bytes@,
                i as int,
                source_path@,
                stack,
                uses_state(*deps, *warnings),
            ) == goal,
        decreases bytes.len() - i,
    {
        i = skip_ws_comments_and_includes(
            tree,
            bytes,
            i,
            source_path,
            warnings,
            deps,
            include_stack,
        );
        if i >= bytes.len() {
            return (i, false);
        }
        if bytes[i] == SEMICOLON {
            return (i + 1, true);
        }
        if !is_ident_start(bytes[i]) {
            i += 1;
            continue ;
        }
        let (name, next) = read_ident(bytes, i);
        push_text(deps, name);
        let after = skip_unit_in_path(bytes, next);
        let (pos, delim) = scan_to_delimiter_with_includes(
            tree,
            bytes,
            after,
            source_path,
            warnings,
            deps,
            include_stack,
        );
        match delim {
            Some(c) => {
                if c == COMMA {
                    i = pos + 1;
                } else {
                    return (pos + 1, true);
                }
            },
            None => {
                return (pos, false);
            },
        }
    }
}

/// Reads the names that a unit uses: those of each uses clause that
/// follows `interface` or `implementation`, with the names that include
/// files give in the place of their directives.
pub fn parse_unit_uses(tree: &SourceTree, path: &str, bytes: &[u8], warnings: &mut Vec<String>) -> (r:
    Vec<String>)
    requires
        tree.wf(),
    ensures
        uses_state(r, *final(warnings)) == unit_uses(
            *tree,
            path@,
            bytes@,
            old(warnings).deep_view(),
        ),
{
    let mut deps: Vec<String> = Vec::new();
    assert(deps.deep_view() =~= Seq::<Seq<char>>::empty());
    let mut in_section = false;
    let mut i: usize = 0;
    while i < bytes.len()
        invariant
            i <= bytes.len(),
            unit_uses_from(
                *tree,
                bytes@,
                i as int,
                path@,
                in_section,
                uses_state(deps, *warnings),
            ) == unit_uses(*tree, path@, bytes@, old(warnings).deep_view()),
        decreases bytes.len() - i,
    {
        match skip_comment_or_string(bytes, i) {
            Some(e) => {
                i = e;
            },
            None => {
                if is_ident_start(bytes[i]) {
                    let next = scan_ident(bytes, i);
                    if matches_keyword(bytes, i, next, "interface") || matches_keyword(
                        bytes,
                        i,
                        next,
                        "implementation",
                    ) {
                        in_section = true;
                        i = next;
                    } else if in_section && matches_keyword(bytes, i, next, "uses") {
                        let mut include_stack: Vec<String> = Vec::new();
                        push_text(&mut include_stack, tree.canonicalize(path));
                        assert(include_stack.deep_view() =~= seq![tree.canonical(path@)]);
                        let (end, _) = parse_uses_fragment_with_includes(
                            tree,
                            bytes,
                            next,
                            path,
                            warnings,
                            &mut deps,
                            &mut include_stack,
                        );
                        i = end;
                    } else {
                        i = next;
                    }
                } else {
                    i += 1;
                }
            },
        }
    }
    deps
}

/// One unit: its name, the file that declares it, and the names it uses.
pub struct UnitFileInfo {
    pub name: String,
    pub path: String,
    pub uses: Vec<String>,
}

/// What a `UnitFileInfo` holds.
pub struct UnitModel {
    pub name: Seq<char>,
    pub path: Seq<char>,
    pub uses: Seq<Seq<char>>,
}

impl View for UnitFileInfo {
    type V = UnitModel;

    open spec fn view(&self) -> UnitModel {
        UnitModel { name: self.name@, path: self.path@, uses: self.uses.deep_view() }
    }
}

impl UnitFileInfo {
    /// A copy of this unit.
    pub fn copy(&self) -> (r: UnitFileInfo)
        ensures
            r@ == self@,
    {
        UnitFileInfo {
            name: self.name.clone(),
            path: self.path.clone(),
            uses: copy_texts(&self.uses),
        }
    }
}

/// The units of a set of files: each under the canonical path of its file,
/// and for each name, in lower case, the paths of the files that declare it.
pub struct UnitCache {
    pub by_path: TextMap<UnitFileInfo>,
    pub by_name: TextMap<Vec<String>>,
}

/// What a `UnitCache` holds.
pub struct CacheModel {
    pub units: Map<Seq<char>, UnitModel>,
    pub names: Map<Seq<char>, Seq<Seq<char>>>,
}

impl View for UnitCache {
    type V = CacheModel;

    open spec fn view(&self) -> CacheModel {
        CacheModel {
            units: Map::new(
                |p: Seq<char>| self.by_path.contains(p),
                |p: Seq<char>| self.by_path.value(p)@,
            ),
            names: Map::new(
                |k: Seq<char>| self.by_name.contains(k),
                |k: Seq<char>| self.by_name.value(k).deep_view(),
            ),
        }
    }
}

impl CacheModel {
    /// No name stands without a path.
    pub open spec fn wf(self) -> bool {
        forall|k: Seq<char>| #[trigger] self.names.contains_key(k) ==> self.names[k].len() > 0
    }

    /// The paths of the files that declare the name `key`.
    pub open spec fn paths_named(self, key: Seq<char>) -> Seq<Seq<char>> {
        if self.names.contains_key(key) {
            self.names[key]
        } else {
            Seq::empty()
        }
    }

    /// A name that more than one file declares.
    pub open spec fn ambiguous(self, key: Seq<char>) -> bool {
        self.paths_named(key).len() > 1
    }

    /// A second file that declares a name makes the name ambiguous.
    pub proof fn lemma_second_unit_is_ambiguous(self, path: Seq<char>, unit: UnitModel)
        requires
            self.wf(),
            self.names.contains_key(lower_text(unit.name)),
        ensures
            self.insert(path, unit).ambiguous(lower_text(unit.name)),
    {
    }

    /// The cache with one more unit.
    pub open spec fn insert(self, path: Seq<char>, unit: UnitModel) -> CacheModel {
        let key = lower_text(unit.name);
        CacheModel {
            units: self.units.insert(path, unit),
            names: self.names.insert(key, self.paths_named(key).push(path)),
        }
    }

    pub open spec fn empty() -> CacheModel {
        CacheModel { units: Map::empty(), names: Map::empty() }
    }
}

impl UnitCache {
    pub open spec fn wf(&self) -> bool {
        &&& self.by_path.wf()
        &&& self.by_name.wf()
        &&& forall|i: int| 0 <= i < self.by_name.values.len() ==> (#[trigger] self.by_name.values[i]).len() > 0
    }

    /// Whether the cache is well formed.
    pub fn is_sound(&self) -> (r: bool)
        ensures
            r == self.wf(),
    {
        if !self.by_path.is_sound() || !self.by_name.is_sound() {
            return false;
        }
        let mut i: usize = 0;
        while i < self.by_name.values.len()
            invariant
                i <= self.by_name.values.len(),
                forall|j: int| 0 <= j < i ==> (#[trigger] self.by_name.values[j]).len() > 0,
            decreases self.by_name.values.len() - i,
        {
            if self.by_name.values[i].len() == 0 {
                return false;
            }
            i += 1;
        }
        true
    }

    /// A cache without units.
    pub fn new() -> (r: UnitCache)
        ensures
            r.wf(),
            r@ == CacheModel::empty(),
    {
        let r = UnitCache { by_path: TextMap::new(), by_name: TextMap::new() };
        assert(r@.units =~= Map::empty());
        assert(r@.names =~= Map::empty());
        r
    }
}

/// The canonical path that `path` leads to in the tree.
pub fn canonicalize_if_exists(tree: &SourceTree, path: &str) -> (r: String)
    requires
        tree.wf(),
    ensures
        r@ == tree.canonical(path@),
{
    tree.canonicalize(path)
}

/// The name that the file name of `path` gives: its stem, trimmed, unless
/// that is empty.
pub open spec fn stem_name(path: Seq<char>) -> Option<Seq<char>> {
    match stem_of(path) {
        Some(stem) => if trimmed(stem).len() > 0 {
            Some(trimmed(stem))
        } else {
            None
        },
        None => None,
    }
}

/// The unit name that the name of a file gives: the file name without
/// its extension, if it has one that is not blank.
pub fn unit_name_from_stem(path: &str) -> (r: Option<String>)
    ensures
        option_text(r) == stem_name(path@),
{
    match path_file_stem(path) {
        Some(stem) => {
            let name = trim(stem.as_str());
            if name.as_str().unicode_len() > 0 {
                Some(name)
            } else {
                None
            }
        },
        None => None,
    }
}

pub open spec fn fallback_warning(path: Seq<char>) -> Seq<char> {
    concat_all(seq!["warning: fallback to filename stem for unit name: "@, path])
}

pub open spec fn no_name_warning(path: Seq<char>) -> Seq<char> {
    concat_all(seq!["warning: unable to determine unit name: "@, path])
}

/// The name of the unit in the file `path` with the bytes `b`: the one it
/// declares, else the one that the file name gives.
pub open spec fn determined_name(path: Seq<char>, b: Seq<u8>) -> Option<Seq<char>> {
    match unit_name(b) {
        Some(name) => Some(name),
        None => stem_name(path),
    }
}

/// The warnings after the name was determined: one more where the unit
/// declares none.
pub open spec fn warnings_after_name(path: Seq<char>, b: Seq<u8>, warnings: Seq<Seq<char>>) -> Seq<
    Seq<char>,
> {
    if unit_name(b) is Some {
        warnings
    } else if stem_name(path) is Some {
        warnings.push(fallback_warning(path))
    } else {
        warnings.push(no_name_warning(path))
    }
}

fn determine_unit_name(path: &str, bytes: &[u8], warnings: &mut Vec<String>) -> (r: Option<String>)
    ensures
        option_text(r) == determined_name(path@, bytes@),
        final(warnings).deep_view() == warnings_after_name(
            path@,
            bytes@,
            old(warnings).deep_view(),
        ),
{
    match parse_unit_name(bytes) {
        Some(name) => Some(name),
        None => match unit_name_from_stem(path) {
            Some(name) => {
                let parts = vec!["warning: fallback to filename stem for unit name: ", path];
                assert(parts.deep_view() =~= seq![
                    "warning: fallback to filename stem for unit name: "@,
                    path@,
                ]);
                push_text(warnings, concat(&parts));
                Some(name)
            },
            None => {
                let parts = vec!["warning: unable to determine unit name: ", path];
                assert(parts.deep_view() =~= seq![
                    "warning: unable to determine unit name: "@,
                    path@,
                ]);
                push_text(warnings, concat(&parts));
                None
            },
        },
    }
}

/// A unit that was read, if its name could be determined, and the
/// warnings after it was read.
pub struct Loaded {
    pub unit: Option<UnitModel>,
    pub warnings: Seq<Seq<char>>,
}

/// What reading the unit with the bytes `b` from the file `path` gives.
pub open spec fn loaded_unit(
    tree: SourceTree,
    path: Seq<char>,
    b: Seq<u8>,
    warnings: Seq<Seq<char>>,
) -> Loaded {
    let named = warnings_after_name(path, b, warnings);
    match determined_name(path, b) {
        Some(name) => {
            let read = unit_uses(tree, path, b, named);
            Loaded {
                unit: Some(UnitModel { name, path, uses: read.names }),
                warnings: read.warnings,
            }
        },
        None => Loaded { unit: None, warnings: named },
    }
}

/// A file that the tree does not hold.
pub struct ReadError {
    pub path: String,
}

/// The model of an optional unit.
pub open spec fn option_unit(r: Option<UnitFileInfo>) -> Option<UnitModel> {
    match r {
        Some(u) => Some(u@),
        None => None,
    }
}

/// Reads the unit in the file `path`: its name and the names it uses. The
/// file must stand in the tree; a unit without a name gives `Ok(None)`.
pub fn load_unit_file(tree: &SourceTree, path: &str, warnings: &mut Vec<String>) -> (r: Result<
    Option<UnitFileInfo>,
    ReadError,
>)
    requires
        tree.wf(),
    ensures
        r is Ok <==> tree.has_file(path@),
        r matches Err(e) ==> e.path@ == path@ && final(warnings).deep_view() == old(
            warnings,
        ).deep_view(),
        r matches Ok(unit) ==> (Loaded {
            unit: option_unit(unit),
            warnings: final(warnings).deep_view(),
        }) == loaded_unit(
            *tree,
            path@,
            tree.contents(path@).unwrap(),
            old(warnings).deep_view(),
        ),
{
    let bytes = match tree.read(path) {
        Some(bytes) => bytes,
        None => {
            return Err(ReadError { path: copy_text(path) });
        },
    };
    let name = match determine_unit_name(path, bytes.as_slice(), warnings) {
        Some(name) => name,
        None => {
            return Ok(None);
        },
    };
    let uses = parse_unit_uses(tree, path, bytes.as_slice(), warnings);
    Ok(Some(UnitFileInfo { name, path: copy_text(path), uses }))
}

fn insert_unit(cache: &mut UnitCache, path: String, info: UnitFileInfo)
    requires
        old(cache).wf(),
    ensures
        final(cache).wf(),
        final(cache)@ == old(cache)@.insert(path@, info@),
{
    let key = to_lower(info.name.as_str());
    let mut bucket = match cache.by_name.get(key.as_str()) {
        Some(paths) => copy_texts(paths),
        None => {
            let fresh: Vec<String> = Vec::new();
            assert(fresh.deep_view() =~= Seq::<Seq<char>>::empty());
            fresh
        },
    };
    let ghost before = *cache;
    let ghost unit = info@;
    push_text(&mut bucket, path.clone());
    cache.by_path.insert(path, info);
    cache.by_name.insert(key, bucket);
    proof {
        let target = before@.insert(path@, unit);
        assert forall|p: Seq<char>| cache@.units.contains_key(p) == target.units.contains_key(
            p,
        ) && (cache@.units.contains_key(p) ==> cache@.units[p] == target.units[p]) by {
            if p != path@ {
                assert(cache.by_path.lookup(p) == before.by_path.lookup(p));
            }
        }
        assert(cache@.units =~= target.units);
        assert forall|k: Seq<char>| cache@.names.contains_key(k) == target.names.contains_key(
            k,
        ) && (cache@.names.contains_key(k) ==> cache@.names[k] == target.names[k]) by {
            if k != key@ {
                assert(cache.by_name.lookup(k) == before.by_name.lookup(k));
            }
        }
        assert(cache@.names =~= target.names);
        assert forall|i: int| 0 <= i < cache.by_name.values.len() implies (
        #[trigger] cache.by_name.values[i]).len() > 0 by {
            if i < before.by_name.values.len() && before.by_name.index_of(key@) != Some(i) {
                assert(cache.by_name.values[i] == before.by_name.values[i]);
            } else {
                lemma_first_from(cache.by_name.key_texts(), key@, 0);
                lemma_first_from(before.by_name.key_texts(), key@, 0);
                assert(cache.by_name.values[i] == bucket);
            }
        }
    }
}

/// The cache and the warnings while a cache is built.
pub struct BuildState {
    pub cache: CacheModel,
    pub warnings: Seq<Seq<char>>,
}

pub open spec fn failed_read_warning(path: Seq<char>) -> Seq<char> {
    concat_all(seq!["warning: failed to read unit at "@, path])
}

/// Adds the file `path` to the cache unless the cache holds it. A file
/// that the tree does not hold gives a warning and no record.
pub open spec fn cache_with(
    tree: SourceTree,
    path: Seq<char>,
    cache: CacheModel,
    warnings: Seq<Seq<char>>,
) -> BuildState {
    let canonical = tree.canonical(path);
    if cache.units.contains_key(canonical) {
        BuildState { cache, warnings }
    } else if !tree.has_file(canonical) {
        BuildState { cache, warnings: warnings.push(failed_read_warning(canonical)) }
    } else {
        let got = loaded_unit(tree, canonical, tree.contents(canonical).unwrap(), warnings);
        BuildState {
            cache: match got.unit {
                Some(unit) => cache.insert(canonical, unit),
                None => cache,
            },
            warnings: got.warnings,
        }
    }
}

/// Adds the files `paths[k..]` to the cache, one after the other.
pub open spec fn cache_build(
    tree: SourceTree,
    paths: Seq<Seq<char>>,
    k: int,
    cache: CacheModel,
    warnings: Seq<Seq<char>>,
) -> BuildState
    decreases paths.len() - k,
{
    if k < 0 || k >= paths.len() {
        BuildState { cache, warnings }
    } else {
        let step = cache_with(tree, paths[k], cache, warnings);
        cache_build(tree, paths, k + 1, step.cache, step.warnings)
    }
}

/// Adds the file `path` to the cache unless the cache holds it, and gives
/// the unit of that file, if it has one. A file that the tree does not
/// hold gives a warning and no unit.
pub fn get_or_load(
    cache: &mut UnitCache,
    tree: &SourceTree,
    path: &str,
    warnings: &mut Vec<String>,
) -> (r: Result<Option<UnitFileInfo>, ReadError>)
    requires
        tree.wf(),
        old(cache).wf(),
    ensures
        final(cache).wf(),
        r is Ok,
        (BuildState { cache: final(cache)@, warnings: final(warnings).deep_view() }) == cache_with(
            *tree,
            path@,
            old(cache)@,
            old(warnings).deep_view(),
        ),
        r matches Ok(unit) ==> option_unit(unit) == (if final(cache)@.units.contains_key(
            tree.canonical(path@),
        ) {
            Some(final(cache)@.units[tree.canonical(path@)])
        } else {
            None
        }),
{
    let canonical = canonicalize_if_exists(tree, path);
    match cache.by_path.get(canonical.as_str()) {
        Some(info) => {
            return Ok(Some(info.copy()));
        },
        None => {},
    }
    match load_unit_file(tree, canonical.as_str(), warnings) {
        Err(e) => {
            let parts = vec!["warning: failed to read unit at ", e.path.as_str()];
            assert(parts.deep_view() =~= seq!["warning: failed to read unit at "@, e.path@]);
            push_text(warnings, concat(&parts));
            Ok(None)
        },
        Ok(None) => Ok(None),
        Ok(Some(info)) => {
            let copy = info.copy();
            insert_unit(cache, canonical, info);
            Ok(Some(copy))
        },
    }
}

/// Builds the cache of the units in the files `paths`: each file once,
/// under its canonical path. A file that the tree does not hold gives a
/// warning and no record, and the building goes on; it always ends with
/// a cache.
pub fn build_unit_cache(tree: &SourceTree, paths: &Vec<String>, warnings: &mut Vec<String>) -> (r:
    Result<UnitCache, ReadError>)
    requires
        tree.wf(),
    ensures
        r matches Ok(cache) && cache.wf() && (BuildState {
            cache: cache@,
            warnings: final(warnings).deep_view(),
        }) == cache_build(
            *tree,
            paths.deep_view(),
            0,
            CacheModel::empty(),
            old(warnings).deep_view(),
        ),
{
    let mut cache = UnitCache::new();
    let mut k: usize = 0;
    while k < paths.len()
        invariant
            k <= paths.len(),
            cache.wf(),
            cache_build(*tree, paths.deep_view(), k as int, cache@, warnings.deep_view())
                == cache_build(
                *tree,
                paths.deep_view(),
                0,
                CacheModel::empty(),
                old(warnings).deep_view(),
            ),
        decreases paths.len() - k,
    {
        assert(paths.deep_view()[k as int] == paths[k as int]@);
        let _ = get_or_load(&mut cache, tree, paths[k].as_str(), warnings);
        k += 1;
    }
    Ok(cache)
}

impl CacheModel {
    /// The two halves of the cache fit: each path that a name lists has
    /// a record, of a unit with that name and under that path; and each
    /// record is listed under the name of its unit.
    pub open spec fn fits(self) -> bool {
        &&& forall|k: Seq<char>, i: int|
            self.names.contains_key(k) && 0 <= i < self.names[k].len() ==> {
                let p = #[trigger] self.names[k][i];
                &&& self.units.contains_key(p)
                &&& lower_text(self.units[p].name) == k
                &&& self.units[p].path == p
            }
        &&& forall|p: Seq<char>| #[trigger]
            self.units.contains_key(p) ==> self.names.contains_key(lower_text(self.units[p].name))
                && self.names[lower_text(self.units[p].name)].contains(p)
    }

    /// A cache whose halves fit stays so when it gets a unit under its
    /// own path, where it had none.
    pub proof fn lemma_insert_fits(self, path: Seq<char>, unit: UnitModel)
        requires
            self.fits(),
            unit.path == path,
            !self.units.contains_key(path),
        ensures
            self.insert(path, unit).fits(),
    {
        let key = lower_text(unit.name);
        let more = self.insert(path, unit);
        let bucket = self.paths_named(key).push(path);
        assert forall|k: Seq<char>, i: int|
            more.names.contains_key(k) && 0 <= i < more.names[k].len() implies {
            let p = #[trigger] more.names[k][i];
            &&& more.units.contains_key(p)
            &&& lower_text(more.units[p].name) == k
            &&& more.units[p].path == p
        } by {
            let p = more.names[k][i];
            if k == key {
                if i < self.paths_named(key).len() {
                    assert(p == self.names[key][i]);
                    assert(self.units.contains_key(self.names[key][i]));
                }
            } else {
                assert(p == self.names[k][i]);
                assert(self.units.contains_key(self.names[k][i]));
            }
        }
        assert forall|p: Seq<char>| #[trigger] more.units.contains_key(p) implies more.names.contains_key(
            lower_text(more.units[p].name),
        ) && more.names[lower_text(more.units[p].name)].contains(p) by {
            if p == path {
                assert(bucket[bucket.len() - 1] == path);
            } else {
                let k = lower_text(self.units[p].name);
                let at = choose|at: int| 0 <= at < self.names[k].len() && self.names[k][at] == p;
                if k == key {
                    assert(bucket[at] == p);
                }
            }
        }
    }
}

/// What a cache that is built holds fits: each path that a name lists
/// has its record under that name, and each record is listed under the
/// name of its unit.
pub proof fn lemma_built_cache_fits(
    tree: SourceTree,
    paths: Seq<Seq<char>>,
    k: int,
    cache: CacheModel,
    warnings: Seq<Seq<char>>,
)
    requires
        0 <= k,
        cache.fits(),
    ensures
        cache_build(tree, paths, k, cache, warnings).cache.fits(),
    decreases paths.len() - k,
{
    if k < paths.len() {
        let canonical = tree.canonical(paths[k]);
        let step = cache_with(tree, paths[k], cache, warnings);
        if !cache.units.contains_key(canonical) && tree.has_file(canonical) {
            let got = loaded_unit(tree, canonical, tree.contents(canonical).unwrap(), warnings);
            match got.unit {
                Some(unit) => {
                    cache.lemma_insert_fits(canonical, unit);
                },
                None => {},
            }
        }
        lemma_built_cache_fits(tree, paths, k + 1, step.cache, step.warnings);
    }
}

/// A cache that is built keeps the records that it has, and has a
/// record for each of the files that the tree holds and whose unit has
/// a name.
pub proof fn lemma_built_cache_holds(
    tree: SourceTree,
    paths: Seq<Seq<char>>,
    k: int,
    cache: CacheModel,
    warnings: Seq<Seq<char>>,
)
    requires
        0 <= k,
    ensures
        forall|p: Seq<char>|
            cache.units.contains_key(p) ==> cache_build(
                tree,
                paths,
                k,
                cache,
                warnings,
            ).cache.units.contains_key(p),
        forall|i: int|
            k <= i < paths.len() && tree.has_file(tree.canonical(#[trigger] paths[i]))
                && determined_name(
                tree.canonical(paths[i]),
                tree.contents(tree.canonical(paths[i])).unwrap(),
            ) is Some ==> cache_build(tree, paths, k, cache, warnings).cache.units.contains_key(
                tree.canonical(paths[i]),
            ),
    decreases paths.len() - k,
{
    if k < paths.len() {
        let step = cache_with(tree, paths[k], cache, warnings);
        let end = cache_build(tree, paths, k, cache, warnings).cache;
        lemma_built_cache_holds(tree, paths, k + 1, step.cache, step.warnings);
        assert forall|p: Seq<char>| cache.units.contains_key(p) implies end.units.contains_key(
            p,
        ) by {
            assert(step.cache.units.contains_key(p));
        }
        assert forall|i: int|
            k <= i < paths.len() && tree.has_file(tree.canonical(#[trigger] paths[i]))
                && determined_name(
                tree.canonical(paths[i]),
                tree.contents(tree.canonical(paths[i])).unwrap(),
            ) is Some implies end.units.contains_key(tree.canonical(paths[i])) by {
            if i == k {
                assert(step.cache.units.contains_key(tree.canonical(paths[k])));
            }
        }
    }
}

} // verus!
