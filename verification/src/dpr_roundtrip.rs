use vstd::prelude::*;

use crate::dpr_edit::{anchor_of, has_name, inserted, Cursor, EditLog};
use crate::dpr_insert::{
    ends_with_comma, entry_text, insertion, insertion_after, insertion_at_end, leading_space_len,
    relative_path_text, separator_before, separator_of, space_run_start, spliced, with_new_entry,
    with_separator,
};
use crate::dpr_parse::{
    closed_entry, declared_path, dpr_after_entry, dpr_fragment, dpr_uses, entries_fit,
    flags_with_path, include_entries, indent_bytes, lemma_declared_path_bounds,
    lemma_dpr_fragment_fits, lemma_indent_end_bounds, lemma_line_start_bounds, line_ending,
    line_start, state_with_entry, uses_keyword_end, ws_comments_only_end, ClauseFlags, DprEnd,
    DprState, EntryModel, ListModel,
};
use crate::dpr_prefix::{
    fits_place, no_new_directive, opens_nothing, pre_reach_start, pre_uses_keyword_end,
    prefix_alike, uncut,
};
use crate::dpr_shift::{added, moved, shift_fragment, shifted};
use crate::pas_lex::{
    ascii_space, blank, comment_end, comment_or_string_end, has_byte, ident_continue, ident_end,
    ident_start, ident_text, include_directive, lemma_comment_or_string_end_bounds,
    lemma_ident_end_bounds, lemma_include_directive_bounds, literal_scan, string_literal,
    ws_comments_end, BRACE_OPEN, COMMA, PAREN_OPEN, QUOTE, SEMICOLON, SLASH, SPACE, TAB,
};
use crate::source_tree::SourceTree;
use crate::text::{
    all_ascii, ascii_text, concat_all, is_keyword, lower_text, same_ignoring_case, text_of_bytes,
    utf8,
};
use crate::unit_cache::UnitModel;

verus! {

/// What an entry says: its name, its declared path, and whether it came
/// from an include file.
pub struct EntryContent {
    pub name: Seq<char>,
    pub in_path: Option<Seq<char>>,
    pub from_include: bool,
}

pub open spec fn content_of(entry: EntryModel) -> EntryContent {
    EntryContent { name: entry.name, in_path: entry.in_path, from_include: entry.from_include }
}

/// What the entries say, in their order.
pub open spec fn contents(entries: Seq<EntryModel>) -> Seq<EntryContent> {
    Seq::new(entries.len(), |k: int| content_of(entries[k]))
}

/// A place in the reading of a clause: where an entry may start, or
/// behind an entry that waits for its delimiter.
pub enum Point {
    Start(DprState),
    Behind(DprState, EntryModel, Seq<EntryModel>),
}

/// The reading of the clause from the offset `at` on, taken up at the
/// place `point`.
pub open spec fn resumed(
    tree: SourceTree,
    b: Seq<u8>,
    at: int,
    source: Seq<char>,
    stack: Seq<Seq<char>>,
    point: Point,
) -> DprEnd {
    match point {
        Point::Start(st) => dpr_fragment(tree, b, at, source, stack, None, st),
        Point::Behind(st, open, pending) => dpr_after_entry(
            tree,
            b,
            at,
            source,
            stack,
            None,
            st,
            open,
            pending,
        ),
    }
}

/// The place at which the reading that starts at `i`, where an entry may
/// start, comes by the offset `at`, if it does.
pub open spec fn reach_start(
    tree: SourceTree,
    b: Seq<u8>,
    i: int,
    source: Seq<char>,
    stack: Seq<Seq<char>>,
    st: DprState,
    at: int,
) -> Option<Point>
    decreases b.len() - i, 0int,
{
    if i == at {
        Some(Point::Start(st))
    } else if i < 0 || i > at || i >= b.len() {
        None
    } else if blank(b[i]) {
        reach_start(tree, b, i + 1, source, stack, st, at)
    } else {
        match include_directive(b, i) {
            Some((name, end)) => {
                proof {
                    lemma_include_directive_bounds(b, i);
                }
                let got = include_entries(tree, name, i, source, stack, st.warnings, st.flags);
                reach_start(
                    tree,
                    b,
                    end,
                    source,
                    stack,
                    DprState {
                        entries: st.entries + got.entries,
                        warnings: got.warnings,
                        flags: got.flags,
                    },
                    at,
                )
            },
            None => match comment_or_string_end(b, i) {
                Some(e) => {
                    proof {
                        lemma_comment_or_string_end_bounds(b, i);
                    }
                    reach_start(tree, b, e, source, stack, st, at)
                },
                None => if b[i] == SEMICOLON {
                    None
                } else if !ident_start(b[i]) {
                    reach_start(tree, b, i + 1, source, stack, st, at)
                } else {
                    let next = ident_end(b, i + 1);
                    let (in_path, after) = declared_path(b, next);
                    proof {
                        lemma_ident_end_bounds(b, i + 1);
                        lemma_declared_path_bounds(b, next);
                    }
                    reach_behind(
                        tree,
                        b,
                        after,
                        source,
                        stack,
                        DprState {
                            entries: st.entries,
                            warnings: st.warnings,
                            flags: flags_with_path(st.flags, in_path),
                        },
                        EntryModel {
                            name: ident_text(b, i),
                            in_path,
                            start: i,
                            delimiter: None,
                            delimiter_pos: None,
                            from_include: false,
                        },
                        Seq::empty(),
                        at,
                    )
                },
            },
        }
    }
}

/// The place at which the reading that goes on at `i`, behind the entry
/// `open`, comes by the offset `at`, if it does.
pub open spec fn reach_behind(
    tree: SourceTree,
    b: Seq<u8>,
    i: int,
    source: Seq<char>,
    stack: Seq<Seq<char>>,
    st: DprState,
    open: EntryModel,
    pending: Seq<EntryModel>,
    at: int,
) -> Option<Point>
    decreases b.len() - i, 1int,
{
    if i == at {
        Some(Point::Behind(st, open, pending))
    } else if i < 0 || i > at || i >= b.len() {
        None
    } else if b[i] == COMMA {
        reach_start(
            tree,
            b,
            i + 1,
            source,
            stack,
            state_with_entry(st, closed_entry(open, Some(COMMA), i), pending),
            at,
        )
    } else if b[i] == SEMICOLON {
        None
    } else {
        match include_directive(b, i) {
            Some((name, end)) => {
                proof {
                    lemma_include_directive_bounds(b, i);
                }
                let got = include_entries(tree, name, i, source, stack, st.warnings, st.flags);
                reach_behind(
                    tree,
                    b,
                    end,
                    source,
                    stack,
                    DprState { entries: st.entries, warnings: got.warnings, flags: got.flags },
                    open,
                    pending + got.entries,
                    at,
                )
            },
            None => match comment_or_string_end(b, i) {
                Some(e) => {
                    proof {
                        lemma_comment_or_string_end_bounds(b, i);
                    }
                    reach_behind(tree, b, e, source, stack, st, open, pending, at)
                },
                None => reach_behind(tree, b, i + 1, source, stack, st, open, pending, at),
            },
        }
    }
}

/// A reading that comes by a place goes on from it.
pub proof fn lemma_reach_start_resumes(
    tree: SourceTree,
    b: Seq<u8>,
    i: int,
    source: Seq<char>,
    stack: Seq<Seq<char>>,
    st: DprState,
    at: int,
)
    requires
        reach_start(tree, b, i, source, stack, st, at) is Some,
    ensures
        dpr_fragment(tree, b, i, source, stack, None, st) == resumed(
            tree,
            b,
            at,
            source,
            stack,
            reach_start(tree, b, i, source, stack, st, at).unwrap(),
        ),
    decreases b.len() - i, 0int,
{
    if i != at {
        if blank(b[i]) {
            lemma_reach_start_resumes(tree, b, i + 1, source, stack, st, at);
        } else {
            lemma_include_directive_bounds(b, i);
            lemma_comment_or_string_end_bounds(b, i);
            match include_directive(b, i) {
                Some((name, end)) => {
                    let got = include_entries(
                        tree,
                        name,
                        i,
                        source,
                        stack,
                        st.warnings,
                        st.flags,
                    );
                    lemma_reach_start_resumes(
                        tree,
                        b,
                        end,
                        source,
                        stack,
                        DprState {
                            entries: st.entries + got.entries,
                            warnings: got.warnings,
                            flags: got.flags,
                        },
                        at,
                    );
                },
                None => match comment_or_string_end(b, i) {
                    Some(e) => {
                        lemma_reach_start_resumes(tree, b, e, source, stack, st, at);
                    },
                    None => if !ident_start(b[i]) {
                        lemma_reach_start_resumes(tree, b, i + 1, source, stack, st, at);
                    } else {
                        let next = ident_end(b, i + 1);
                        let (in_path, after) = declared_path(b, next);
                        lemma_ident_end_bounds(b, i + 1);
                        lemma_declared_path_bounds(b, next);
                        lemma_reach_behind_resumes(
                            tree,
                            b,
                            after,
                            source,
                            stack,
                            DprState {
                                entries: st.entries,
                                warnings: st.warnings,
                                flags: flags_with_path(st.flags, in_path),
                            },
                            EntryModel {
                                name: ident_text(b, i),
                                in_path,
                                start: i,
                                delimiter: None,
                                delimiter_pos: None,
                                from_include: false,
                            },
                            Seq::empty(),
                            at,
                        );
                    },
                },
            }
        }
    }
}

pub proof fn lemma_reach_behind_resumes(
    tree: SourceTree,
    b: Seq<u8>,
    i: int,
    source: Seq<char>,
    stack: Seq<Seq<char>>,
    st: DprState,
    open: EntryModel,
    pending: Seq<EntryModel>,
    at: int,
)
    requires
        reach_behind(tree, b, i, source, stack, st, open, pending, at) is Some,
    ensures
        dpr_after_entry(tree, b, i, source, stack, None, st, open, pending) == resumed(
            tree,
            b,
            at,
            source,
            stack,
            reach_behind(tree, b, i, source, stack, st, open, pending, at).unwrap(),
        ),
    decreases b.len() - i, 1int,
{
    if i != at {
        if b[i] == COMMA {
            lemma_reach_start_resumes(
                tree,
                b,
                i + 1,
                source,
                stack,
                state_with_entry(st, closed_entry(open, Some(COMMA), i), pending),
                at,
            );
        } else {
            lemma_include_directive_bounds(b, i);
            lemma_comment_or_string_end_bounds(b, i);
            match include_directive(b, i) {
                Some((name, end)) => {
                    let got = include_entries(
                        tree,
                        name,
                        i,
                        source,
                        stack,
                        st.warnings,
                        st.flags,
                    );
                    lemma_reach_behind_resumes(
                        tree,
                        b,
                        end,
                        source,
                        stack,
                        DprState { entries: st.entries, warnings: got.warnings, flags: got.flags },
                        open,
                        pending + got.entries,
                        at,
                    );
                },
                None => match comment_or_string_end(b, i) {
                    Some(e) => {
                        lemma_reach_behind_resumes(tree, b, e, source, stack, st, open, pending, at);
                    },
                    None => {
                        lemma_reach_behind_resumes(
                            tree,
                            b,
                            i + 1,
                            source,
                            stack,
                            st,
                            open,
                            pending,
                            at,
                        );
                    },
                },
            }
        }
    }
}

/// A byte that the reading passes over where an entry may start: a
/// blank, or a byte that opens nothing and is no `;`.
pub open spec fn passed_at_start(byte: u8) -> bool {
    blank(byte) || (byte != BRACE_OPEN && byte != PAREN_OPEN && byte != SLASH && byte != QUOTE
        && byte != SEMICOLON && !ident_start(byte))
}

/// A byte that the reading passes over behind an entry: one that opens
/// nothing and ends nothing.
pub open spec fn passed_behind(byte: u8) -> bool {
    byte != BRACE_OPEN && byte != PAREN_OPEN && byte != SLASH && byte != QUOTE && byte
        != SEMICOLON && byte != COMMA
}

pub proof fn lemma_start_passes_run(
    tree: SourceTree,
    c: Seq<u8>,
    i: int,
    n: int,
    source: Seq<char>,
    stack: Seq<Seq<char>>,
    st: DprState,
)
    requires
        0 <= i,
        0 <= n,
        i + n <= c.len(),
        forall|k: int| i <= k < i + n ==> passed_at_start(#[trigger] c[k]),
    ensures
        dpr_fragment(tree, c, i, source, stack, None, st) == dpr_fragment(
            tree,
            c,
            i + n,
            source,
            stack,
            None,
            st,
        ),
    decreases n,
{
    if n > 0 {
        assert(passed_at_start(c[i]));
        lemma_start_passes_run(tree, c, i + 1, n - 1, source, stack, st);
    }
}

pub proof fn lemma_behind_passes_run(
    tree: SourceTree,
    c: Seq<u8>,
    i: int,
    n: int,
    source: Seq<char>,
    stack: Seq<Seq<char>>,
    st: DprState,
    open: EntryModel,
    pending: Seq<EntryModel>,
)
    requires
        0 <= i,
        0 <= n,
        i + n <= c.len(),
        forall|k: int| i <= k < i + n ==> passed_behind(#[trigger] c[k]),
    ensures
        dpr_after_entry(tree, c, i, source, stack, None, st, open, pending) == dpr_after_entry(
            tree,
            c,
            i + n,
            source,
            stack,
            None,
            st,
            open,
            pending,
        ),
    decreases n,
{
    if n > 0 {
        assert(passed_behind(c[i]));
        lemma_behind_passes_run(tree, c, i + 1, n - 1, source, stack, st, open, pending);
    }
}

/// The bytes `c[i..i + run.len()]` are those of `run`.
pub open spec fn holds_at(c: Seq<u8>, i: int, run: Seq<u8>) -> bool {
    0 <= i && i + run.len() <= c.len() && forall|k: int|
        0 <= k < run.len() ==> c[i + k] == #[trigger] run[k]
}

/// The bytes of an identifier: a letter or an underscore, then letters,
/// digits, underscores and dots.
pub open spec fn identifier(name: Seq<u8>) -> bool {
    name.len() > 0 && ident_start(name[0]) && forall|k: int|
        0 <= k < name.len() ==> ident_continue(#[trigger] name[k])
}

pub proof fn lemma_ident_end_of_run(c: Seq<u8>, i: int, n: int)
    requires
        0 <= i,
        0 <= n,
        i + n <= c.len(),
        forall|k: int| i <= k < i + n ==> ident_continue(#[trigger] c[k]),
        i + n < c.len() ==> !ident_continue(c[i + n]),
    ensures
        ident_end(c, i) == i + n,
    decreases n,
{
    if n > 0 {
        assert(ident_continue(c[i]));
        lemma_ident_end_of_run(c, i + 1, n - 1);
    }
}

pub proof fn lemma_literal_scan_of_run(c: Seq<u8>, i: int, run: Seq<u8>, k: int, acc: Seq<u8>)
    requires
        holds_at(c, i, run),
        0 <= k <= run.len(),
        !run.contains(QUOTE),
        has_byte(c, i + run.len(), QUOTE),
        !has_byte(c, i + run.len() + 1, QUOTE),
    ensures
        literal_scan(c, i + k, acc) == Some((acc + run.skip(k), i + run.len() + 1)),
    decreases run.len() - k,
{
    if k < run.len() {
        assert(c[i + k] == run[k]);
        assert(run.contains(run[k]));
        lemma_literal_scan_of_run(c, i, run, k + 1, acc.push(c[i + k]));
        assert(acc.push(run[k]) + run.skip(k + 1) =~= acc + run.skip(k));
    } else {
        assert(acc + run.skip(k) =~= acc);
    }
}

/// The bytes that stand between the name and the path of an entry:
/// ` in '`.
pub open spec fn in_bytes() -> Seq<u8> {
    seq![SPACE, 0x69u8, 0x6eu8, SPACE, QUOTE]
}

/// The bytes of an entry with the name `name` and the path `path`.
pub open spec fn entry_bytes(name: Seq<u8>, path: Seq<u8>) -> Seq<u8> {
    name + in_bytes() + path + seq![QUOTE]
}

/// The entry that is read from such bytes, before its delimiter is met.
pub open spec fn read_entry(name: Seq<u8>, path: Seq<u8>, start: int) -> EntryModel {
    EntryModel {
        name: ascii_text(name),
        in_path: Some(text_of_bytes(path)),
        start,
        delimiter: None,
        delimiter_pos: None,
        from_include: false,
    }
}

pub proof fn lemma_in_is_keyword(c: Seq<u8>, j: int)
    requires
        0 <= j,
        j + 2 <= c.len(),
        c[j] == 0x69,
        c[j + 1] == 0x6e,
    ensures
        is_keyword(c.subrange(j, j + 2), "in"@),
{
    reveal_strlit("in");
    let token = c.subrange(j, j + 2);
    assert(token[0] == 0x69 && token[1] == 0x6e);
    assert("in"@ =~= seq!['i', 'n']);
    assert(ascii_text(token) =~= seq!['i', 'n']);
    assert(lower_text(ascii_text(token)) =~= lower_text("in"@));
}

/// Where an entry may start, the bytes of an entry are read as that
/// entry.
pub proof fn lemma_entry_is_read(
    tree: SourceTree,
    c: Seq<u8>,
    i: int,
    name: Seq<u8>,
    path: Seq<u8>,
    source: Seq<char>,
    stack: Seq<Seq<char>>,
    st: DprState,
)
    requires
        holds_at(c, i, entry_bytes(name, path)),
        identifier(name),
        !path.contains(QUOTE),
        !has_byte(c, i + entry_bytes(name, path).len(), QUOTE),
    ensures
        dpr_fragment(tree, c, i, source, stack, None, st) == dpr_after_entry(
            tree,
            c,
            i + entry_bytes(name, path).len(),
            source,
            stack,
            None,
            DprState {
                entries: st.entries,
                warnings: st.warnings,
                flags: flags_with_path(st.flags, Some(text_of_bytes(path))),
            },
            read_entry(name, path, i),
            Seq::empty(),
        ),
{
    let text = entry_bytes(name, path);
    let n = name.len() as int;
    let m = path.len() as int;
    assert(text.len() == n + 5 + m + 1);
    assert forall|k: int| 0 <= k < n implies c[i + k] == name[k] by {
        assert(text[k] == name[k]);
    }
    assert(c[i + n] == SPACE) by {
        assert(text[n] == SPACE);
    }
    assert(c[i + n + 1] == 0x69) by {
        assert(text[n + 1] == 0x69);
    }
    assert(c[i + n + 2] == 0x6e) by {
        assert(text[n + 2] == 0x6e);
    }
    assert(c[i + n + 3] == SPACE) by {
        assert(text[n + 3] == SPACE);
    }
    assert(c[i + n + 4] == QUOTE) by {
        assert(text[n + 4] == QUOTE);
    }
    assert forall|k: int| 0 <= k < m implies c[i + n + 5 + k] == #[trigger] path[k] by {
        assert(text[n + 5 + k] == path[k]);
    }
    assert(c[i + n + 5 + m] == QUOTE) by {
        assert(text[n + 5 + m] == QUOTE);
    }
    assert(c[i] == name[0]);
    assert(ident_start(c[i]));
    assert forall|k: int| i + 1 <= k < i + n implies ident_continue(#[trigger] c[k]) by {
        assert(c[i + (k - i)] == name[k - i]);
    }
    lemma_ident_end_of_run(c, i + 1, n - 1);
    let next = i + n;
    assert(ident_end(c, i + 1) == next);
    assert(c.subrange(i, next) =~= name);
    assert(ident_text(c, i) == ascii_text(name));
    assert(include_directive(c, i) is None);
    assert(comment_or_string_end(c, i) is None);
    assert(ws_comments_end(c, next + 1) == next + 1) by {
        assert(comment_or_string_end(c, next + 1) is None);
    }
    assert(ws_comments_end(c, next) == next + 1);
    assert(ident_end(c, next + 3) == next + 3);
    assert(ident_end(c, next + 2) == next + 3);
    lemma_in_is_keyword(c, next + 1);
    assert(ws_comments_only_end(c, next + 4) == next + 4) by {
        assert(comment_end(c, next + 4) is None);
    }
    assert(ws_comments_only_end(c, next + 3) == next + 4);
    assert(holds_at(c, next + 5, path));
    lemma_literal_scan_of_run(c, next + 5, path, 0, Seq::empty());
    assert(Seq::<u8>::empty() + path.skip(0) =~= path);
    assert(string_literal(c, next + 4) == Some((text_of_bytes(path), next + 5 + m + 1)));
    assert(declared_path(c, next) == (Some(text_of_bytes(path)), next + 5 + m + 1));
}

pub proof fn lemma_start_to_semicolon(
    tree: SourceTree,
    c: Seq<u8>,
    i: int,
    semicolon: int,
    source: Seq<char>,
    stack: Seq<Seq<char>>,
    st: DprState,
)
    requires
        0 <= i <= semicolon < c.len(),
        c[semicolon] == SEMICOLON,
        forall|k: int| i <= k < semicolon ==> passed_at_start(#[trigger] c[k]),
    ensures
        dpr_fragment(tree, c, i, source, stack, None, st) == (DprEnd {
            semicolon: Some(semicolon),
            state: st,
        }),
{
    lemma_start_passes_run(tree, c, i, semicolon - i, source, stack, st);
    assert(include_directive(c, semicolon) is None);
    assert(comment_or_string_end(c, semicolon) is None);
}

pub proof fn lemma_behind_to_semicolon(
    tree: SourceTree,
    c: Seq<u8>,
    i: int,
    semicolon: int,
    source: Seq<char>,
    stack: Seq<Seq<char>>,
    st: DprState,
    open: EntryModel,
    pending: Seq<EntryModel>,
)
    requires
        0 <= i <= semicolon < c.len(),
        c[semicolon] == SEMICOLON,
        forall|k: int| i <= k < semicolon ==> passed_behind(#[trigger] c[k]),
    ensures
        dpr_after_entry(tree, c, i, source, stack, None, st, open, pending) == (DprEnd {
            semicolon: Some(semicolon),
            state: state_with_entry(st, closed_entry(open, Some(SEMICOLON), semicolon), pending),
        }),
{
    lemma_behind_passes_run(tree, c, i, semicolon - i, source, stack, st, open, pending);
}

/// Each of the entries starts before the offset `at`.
pub open spec fn starts_below(entries: Seq<EntryModel>, at: int) -> bool {
    forall|k: int| 0 <= k < entries.len() ==> (#[trigger] entries[k]).start < at
}

/// The entries that a reading has met when it comes by an offset start
/// before that offset.
pub proof fn lemma_reach_start_entries_below(
    tree: SourceTree,
    b: Seq<u8>,
    i: int,
    source: Seq<char>,
    stack: Seq<Seq<char>>,
    st: DprState,
    at: int,
)
    requires
        reach_start(tree, b, i, source, stack, st, at) is Some,
        starts_below(st.entries, at),
    ensures
        starts_below(entries_at(reach_start(tree, b, i, source, stack, st, at).unwrap()), at),
    decreases b.len() - i, 0int,
{
    if i != at && !(i < 0 || i > at || i >= b.len()) {
        if blank(b[i]) {
            lemma_reach_start_entries_below(tree, b, i + 1, source, stack, st, at);
        } else {
            lemma_include_directive_bounds(b, i);
            lemma_comment_or_string_end_bounds(b, i);
            match include_directive(b, i) {
                Some((name, end)) => {
                    let got = include_entries(tree, name, i, source, stack, st.warnings, st.flags);
                    crate::dpr_parse::lemma_include_entries_anchored(
                        tree,
                        name,
                        i,
                        source,
                        stack,
                        st.warnings,
                        st.flags,
                    );
                    let next = DprState {
                        entries: st.entries + got.entries,
                        warnings: got.warnings,
                        flags: got.flags,
                    };
                    assert(starts_below(next.entries, at)) by {
                        assert forall|k: int| 0 <= k < next.entries.len() implies (
                        #[trigger] next.entries[k]).start < at by {
                            if k < st.entries.len() {
                                assert(next.entries[k] == st.entries[k]);
                            } else {
                                assert(next.entries[k] == got.entries[k - st.entries.len()]);
                            }
                        }
                    }
                    lemma_reach_start_entries_below(tree, b, end, source, stack, next, at);
                },
                None => match comment_or_string_end(b, i) {
                    Some(e) => {
                        lemma_reach_start_entries_below(tree, b, e, source, stack, st, at);
                    },
                    None => if b[i] == SEMICOLON {
                    } else if !ident_start(b[i]) {
                        lemma_reach_start_entries_below(tree, b, i + 1, source, stack, st, at);
                    } else {
                        let next = ident_end(b, i + 1);
                        let (in_path, after) = declared_path(b, next);
                        lemma_ident_end_bounds(b, i + 1);
                        lemma_declared_path_bounds(b, next);
                        lemma_reach_behind_entries_below(
                            tree,
                            b,
                            after,
                            source,
                            stack,
                            DprState {
                                entries: st.entries,
                                warnings: st.warnings,
                                flags: flags_with_path(st.flags, in_path),
                            },
                            EntryModel {
                                name: ident_text(b, i),
                                in_path,
                                start: i,
                                delimiter: None,
                                delimiter_pos: None,
                                from_include: false,
                            },
                            Seq::empty(),
                            at,
                        );
                    },
                },
            }
        }
    }
}

pub proof fn lemma_reach_behind_entries_below(
    tree: SourceTree,
    b: Seq<u8>,
    i: int,
    source: Seq<char>,
    stack: Seq<Seq<char>>,
    st: DprState,
    open: EntryModel,
    pending: Seq<EntryModel>,
    at: int,
)
    requires
        reach_behind(tree, b, i, source, stack, st, open, pending, at) is Some,
        starts_below(st.entries, at),
        starts_below(pending, at),
        open.start < at,
    ensures
        starts_below(
            entries_at(reach_behind(tree, b, i, source, stack, st, open, pending, at).unwrap()),
            at,
        ),
    decreases b.len() - i, 1int,
{
    if i == at {
        let all = st.entries.push(open) + pending;
        assert forall|k: int| 0 <= k < all.len() implies (#[trigger] all[k]).start < at by {
            if k < st.entries.len() {
                assert(all[k] == st.entries[k]);
            } else if k == st.entries.len() {
                assert(all[k] == open);
            } else {
                assert(all[k] == pending[k - st.entries.len() - 1]);
            }
        }
    } else if !(i < 0 || i > at || i >= b.len()) {
        if b[i] == COMMA {
            let next = state_with_entry(st, closed_entry(open, Some(COMMA), i), pending);
            assert forall|k: int| 0 <= k < next.entries.len() implies (
            #[trigger] next.entries[k]).start < at by {
                if k < st.entries.len() {
                    assert(next.entries[k] == st.entries[k]);
                } else if k == st.entries.len() {
                    assert(next.entries[k] == closed_entry(open, Some(COMMA), i));
                } else {
                    assert(next.entries[k] == pending[k - st.entries.len() - 1]);
                }
            }
            lemma_reach_start_entries_below(tree, b, i + 1, source, stack, next, at);
        } else if b[i] == SEMICOLON {
        } else {
            lemma_include_directive_bounds(b, i);
            lemma_comment_or_string_end_bounds(b, i);
            match include_directive(b, i) {
                Some((name, end)) => {
                    let got = include_entries(tree, name, i, source, stack, st.warnings, st.flags);
                    crate::dpr_parse::lemma_include_entries_anchored(
                        tree,
                        name,
                        i,
                        source,
                        stack,
                        st.warnings,
                        st.flags,
                    );
                    let more = pending + got.entries;
                    assert forall|k: int| 0 <= k < more.len() implies (#[trigger] more[k]).start
                        < at by {
                        if k < pending.len() {
                            assert(more[k] == pending[k]);
                        } else {
                            assert(more[k] == got.entries[k - pending.len()]);
                        }
                    }
                    lemma_reach_behind_entries_below(
                        tree,
                        b,
                        end,
                        source,
                        stack,
                        DprState { entries: st.entries, warnings: got.warnings, flags: got.flags },
                        open,
                        more,
                        at,
                    );
                },
                None => match comment_or_string_end(b, i) {
                    Some(e) => {
                        lemma_reach_behind_entries_below(
                            tree,
                            b,
                            e,
                            source,
                            stack,
                            st,
                            open,
                            pending,
                            at,
                        );
                    },
                    None => {
                        lemma_reach_behind_entries_below(
                            tree,
                            b,
                            i + 1,
                            source,
                            stack,
                            st,
                            open,
                            pending,
                            at,
                        );
                    },
                },
            }
        }
    }
}

/// The entries at a place: those that were read, with the entry that
/// waits for its delimiter and what is to come behind it.
pub open spec fn entries_at(point: Point) -> Seq<EntryModel> {
    match point {
        Point::Start(st) => st.entries,
        Point::Behind(st, open, pending) => st.entries.push(open) + pending,
    }
}

pub open spec fn flags_at(point: Point) -> ClauseFlags {
    match point {
        Point::Start(st) => st.flags,
        Point::Behind(st, open, pending) => st.flags,
    }
}

/// The bytes that are put in front of the semicolon: a comma, if one is
/// wanted, then bytes that the reading passes over, then the entry.
pub open spec fn appended_bytes(lead_comma: bool, gap: Seq<u8>, name: Seq<u8>, path: Seq<u8>) -> Seq<
    u8,
> {
    (if lead_comma {
        seq![COMMA]
    } else {
        Seq::<u8>::empty()
    }) + gap + entry_bytes(name, path)
}

/// From a place before the semicolon with nothing but whitespace between
/// the two, the old text is read to its end, and the new text, which
/// holds one more entry before the whitespace, is read to its end with
/// that entry behind the others.
pub proof fn lemma_appended_entry_is_read(
    tree: SourceTree,
    b: Seq<u8>,
    at: int,
    semicolon: int,
    lead_comma: bool,
    gap: Seq<u8>,
    name: Seq<u8>,
    path: Seq<u8>,
    source: Seq<char>,
    stack: Seq<Seq<char>>,
    point: Point,
)
    requires
        0 <= at <= semicolon < b.len(),
        b[semicolon] == SEMICOLON,
        forall|k: int| at <= k < semicolon ==> ascii_space(#[trigger] b[k]),
        forall|k: int| 0 <= k < gap.len() ==> passed_at_start(#[trigger] gap[k]),
        identifier(name),
        !path.contains(QUOTE),
        !lead_comma ==> point is Start,
    ensures
        ({
            let bytes = appended_bytes(lead_comma, gap, name, path);
            let old = resumed(tree, b, at, source, stack, point);
            let new = resumed(tree, spliced(b, at, bytes), at, source, stack, point);
            &&& old.semicolon == Some(semicolon)
            &&& new.semicolon == Some(semicolon + bytes.len())
            &&& contents(old.state.entries) == contents(entries_at(point))
            &&& contents(new.state.entries) == contents(entries_at(point)).push(
                content_of(read_entry(name, path, 0)),
            )
            &&& old.state.flags.include_semicolon == flags_at(point).include_semicolon
            &&& new.state.flags.include_semicolon == flags_at(point).include_semicolon
        }),
{
    let bytes = appended_bytes(lead_comma, gap, name, path);
    let c = spliced(b, at, bytes);
    let lead: int = if lead_comma {
        1
    } else {
        0
    };
    let text = entry_bytes(name, path);
    let from = at + lead + gap.len();
    let behind = from + text.len();
    assert(bytes.len() == lead + gap.len() + text.len());
    assert(c.len() == b.len() + bytes.len());
    assert forall|k: int| 0 <= k < bytes.len() implies c[at + k] == bytes[k] by {}
    assert forall|k: int| at <= k < b.len() implies c[k + bytes.len()] == b[k] by {}
    assert forall|k: int| at + lead <= k < from implies passed_at_start(#[trigger] c[k]) by {
        assert(c[at + (k - at)] == bytes[k - at]);
        assert(bytes[k - at] == gap[k - at - lead]);
    }
    assert(holds_at(c, from, text)) by {
        assert forall|k: int| 0 <= k < text.len() implies c[from + k] == #[trigger] text[k] by {
            assert(c[at + (lead + gap.len() + k)] == bytes[lead + gap.len() + k]);
        }
    }
    assert(!has_byte(c, behind, QUOTE)) by {
        assert(c[at + bytes.len()] == b[at]);
        if at < semicolon {
            assert(ascii_space(b[at]));
        }
    }
    assert forall|k: int| behind <= k < semicolon + bytes.len() implies passed_behind(
        #[trigger] c[k],
    ) by {
        assert(c[(k - bytes.len()) + bytes.len()] == b[k - bytes.len()]);
        assert(ascii_space(b[k - bytes.len()]));
    }
    assert(c[semicolon + bytes.len()] == SEMICOLON);
    let new_open = read_entry(name, path, from);
    match point {
        Point::Start(st) => {
            assert forall|k: int| at <= k < semicolon implies passed_at_start(#[trigger] b[k]) by {
                assert(ascii_space(b[k]));
            }
            lemma_start_to_semicolon(tree, b, at, semicolon, source, stack, st);
            if lead_comma {
                assert(c[at] == COMMA) by {
                    assert(c[at + 0] == bytes[0]);
                }
                assert(passed_at_start(c[at]));
                lemma_start_passes_run(tree, c, at, 1, source, stack, st);
            }
            lemma_start_passes_run(tree, c, at + lead, gap.len() as int, source, stack, st);
            lemma_entry_is_read(tree, c, from, name, path, source, stack, st);
            let st2 = DprState {
                entries: st.entries,
                warnings: st.warnings,
                flags: flags_with_path(st.flags, Some(text_of_bytes(path))),
            };
            lemma_behind_to_semicolon(
                tree,
                c,
                behind,
                semicolon + bytes.len(),
                source,
                stack,
                st2,
                new_open,
                Seq::empty(),
            );
            let closed = closed_entry(new_open, Some(SEMICOLON), semicolon + bytes.len());
            assert(contents(state_with_entry(st2, closed, Seq::empty()).entries) =~= contents(
                st.entries,
            ).push(content_of(read_entry(name, path, 0))));
        },
        Point::Behind(st, open, pending) => {
            assert forall|k: int| at <= k < semicolon implies passed_behind(#[trigger] b[k]) by {
                assert(ascii_space(b[k]));
            }
            lemma_behind_to_semicolon(tree, b, at, semicolon, source, stack, st, open, pending);
            let old_closed = closed_entry(open, Some(SEMICOLON), semicolon);
            assert(contents(state_with_entry(st, old_closed, pending).entries) =~= contents(
                st.entries.push(open) + pending,
            ));
            assert(c[at] == COMMA) by {
                assert(c[at + 0] == bytes[0]);
            }
            let st1 = state_with_entry(st, closed_entry(open, Some(COMMA), at), pending);
            lemma_start_passes_run(tree, c, at + 1, gap.len() as int, source, stack, st1);
            lemma_entry_is_read(tree, c, from, name, path, source, stack, st1);
            let st2 = DprState {
                entries: st1.entries,
                warnings: st1.warnings,
                flags: flags_with_path(st1.flags, Some(text_of_bytes(path))),
            };
            lemma_behind_to_semicolon(
                tree,
                c,
                behind,
                semicolon + bytes.len(),
                source,
                stack,
                st2,
                new_open,
                Seq::empty(),
            );
            let closed = closed_entry(new_open, Some(SEMICOLON), semicolon + bytes.len());
            assert(contents(state_with_entry(st2, closed, Seq::empty()).entries) =~= contents(
                st.entries.push(open) + pending,
            ).push(content_of(read_entry(name, path, 0))));
        },
    }
}

/// The bytes of two texts, one behind the other, are the bytes of the
/// one behind the bytes of the other.
pub proof fn lemma_utf8_concat(a: Seq<char>, b: Seq<char>)
    ensures
        utf8(a + b) == utf8(a) + utf8(b),
    decreases a.len(),
{
    if a.len() == 0 {
        assert(a + b =~= b);
        assert(utf8(a) + utf8(b) =~= utf8(b));
    } else {
        assert((a + b).drop_first() =~= a.drop_first() + b);
        assert((a + b)[0] == a[0]);
        lemma_utf8_concat(a.drop_first(), b);
        assert(utf8(a + b) =~= utf8(a) + utf8(b));
    }
}

/// The bytes of ASCII characters are the characters themselves.
pub proof fn lemma_utf8_ascii(x: Seq<u8>)
    requires
        all_ascii(x),
    ensures
        utf8(ascii_text(x)) == x,
{
    let chars = ascii_text(x);
    assert(vstd::utf8::is_ascii_chars(chars)) by {
        assert forall|i: int| 0 <= i < chars.len() implies '\0' <= #[trigger] chars[i]
            <= '\u{7f}' by {
            assert(chars[i] == x[i] as char);
            assert(x[i] < 0x80);
        }
    }
    vstd::utf8::is_ascii_chars_encode_utf8(chars);
    assert forall|i: int| 0 <= i < x.len() implies utf8(chars)[i] == x[i] by {
        assert(chars[i] as u8 == utf8(chars)[i]);
        assert(chars[i] == x[i] as char);
    }
    assert(utf8(chars) =~= x);
}

/// The text of an entry with the name `name` and the path `shown`.
pub open spec fn entry_text_of(name: Seq<u8>, shown: Seq<char>) -> Seq<char> {
    concat_all(seq![ascii_text(name), " in '"@, shown, "'"@])
}

/// The bytes of the text of an entry are the bytes of an entry.
pub proof fn lemma_entry_text_bytes(name: Seq<u8>, shown: Seq<char>)
    requires
        identifier(name),
    ensures
        utf8(entry_text_of(name, shown)) == entry_bytes(name, utf8(shown)),
{
    reveal_strlit(" in '");
    reveal_strlit("'");
    let n = ascii_text(name);
    let parts = seq![n, " in '"@, shown, "'"@];
    assert(concat_all(parts) =~= n + " in '"@ + shown + "'"@) by {
        reveal_with_fuel(concat_all, 5);
        assert(parts.drop_last() =~= seq![n, " in '"@, shown]);
        assert(parts.drop_last().drop_last() =~= seq![n, " in '"@]);
        assert(parts.drop_last().drop_last().drop_last() =~= seq![n]);
        assert(parts.drop_last().drop_last().drop_last().drop_last() =~= Seq::<
            Seq<char>,
        >::empty());
    }
    lemma_utf8_concat(n + " in '"@ + shown, "'"@);
    lemma_utf8_concat(n + " in '"@, shown);
    lemma_utf8_concat(n, " in '"@);
    assert(all_ascii(name)) by {
        assert forall|i: int| 0 <= i < name.len() implies name[i] < 0x80 by {
            assert(ident_continue(name[i]));
        }
    }
    lemma_utf8_ascii(name);
    assert(" in '"@ =~= ascii_text(in_bytes()));
    lemma_utf8_ascii(in_bytes());
    assert("'"@ =~= ascii_text(seq![QUOTE]));
    lemma_utf8_ascii(seq![QUOTE]);
}

pub proof fn lemma_space_run(b: Seq<u8>, pos: int)
    requires
        0 <= pos <= b.len(),
    ensures
        0 <= space_run_start(b, pos) <= pos,
        forall|k: int| space_run_start(b, pos) <= k < pos ==> ascii_space(#[trigger] b[k]),
    decreases pos,
{
    if pos > 0 && ascii_space(b[pos - 1]) {
        lemma_space_run(b, pos - 1);
    }
}

/// The state in which the reading of a clause starts.
pub open spec fn first_state(warnings: Seq<Seq<char>>) -> DprState {
    DprState {
        entries: Seq::empty(),
        warnings,
        flags: ClauseFlags { has_backslash: false, has_slash: false, include_semicolon: false },
    }
}

/// The place at which the reading of the clause of `b` comes by the
/// offset `at`, if `b` has a clause and the reading does.
pub open spec fn clause_place(
    tree: SourceTree,
    path: Seq<char>,
    b: Seq<u8>,
    warnings: Seq<Seq<char>>,
    at: int,
) -> Option<Point> {
    match uses_keyword_end(b, 0) {
        Some(start) => reach_start(
            tree,
            b,
            start,
            path,
            seq![tree.canonical(path)],
            first_state(warnings),
            at,
        ),
        None => None,
    }
}

/// The new text reads up to the splice as the old text does: its clause
/// starts where that of the old text starts, and the reading comes by
/// the splice at the same place.
pub open spec fn reads_alike_up_to(
    tree: SourceTree,
    path: Seq<char>,
    b: Seq<u8>,
    new: Seq<u8>,
    warnings: Seq<Seq<char>>,
    at: int,
) -> bool {
    &&& uses_keyword_end(new, 0) == uses_keyword_end(b, 0)
    &&& clause_place(tree, path, b, warnings, at) is Some
    &&& clause_place(tree, path, new, warnings, at) == clause_place(tree, path, b, warnings, at)
}

/// What the entry for the unit `name` with the shown path `shown` says.
pub open spec fn new_content(name: Seq<u8>, shown: Seq<char>) -> EntryContent {
    EntryContent {
        name: ascii_text(name),
        in_path: Some(text_of_bytes(utf8(shown))),
        from_include: false,
    }
}

/// The end of the reading of the clause of `b`, if `b` has one.
pub open spec fn clause_end(
    tree: SourceTree,
    path: Seq<char>,
    b: Seq<u8>,
    warnings: Seq<Seq<char>>,
) -> DprEnd {
    dpr_fragment(
        tree,
        b,
        uses_keyword_end(b, 0).unwrap(),
        path,
        seq![tree.canonical(path)],
        None,
        first_state(warnings),
    )
}

/// A clause that was read ended at its semicolon, which stands in the
/// text, with the entries of the list and without a fault of an include
/// file.
pub proof fn lemma_list_is_clause_end(
    tree: SourceTree,
    path: Seq<char>,
    b: Seq<u8>,
    warnings: Seq<Seq<char>>,
)
    requires
        dpr_uses(tree, path, b, warnings).list is Some,
    ensures
        ({
            let list = dpr_uses(tree, path, b, warnings).list.unwrap();
            let end = clause_end(tree, path, b, warnings);
            &&& uses_keyword_end(b, 0) is Some
            &&& end.semicolon == Some(list.semicolon)
            &&& end.state.entries == list.entries
            &&& !end.state.flags.include_semicolon
            &&& list.entries.len() > 0
            &&& 0 <= list.semicolon < b.len()
            &&& b[list.semicolon] == SEMICOLON
            &&& entries_fit(list.entries, b)
        }),
{
    let start = uses_keyword_end(b, 0).unwrap();
    lemma_uses_keyword_end_bounds(b, 0);
    lemma_dpr_fragment_fits(
        tree,
        b,
        start,
        path,
        seq![tree.canonical(path)],
        None,
        first_state(warnings),
    );
}

/// A reading that ends at a semicolon with entries and without a fault
/// of an include file gives a list with those entries.
pub proof fn lemma_clause_end_is_list(
    tree: SourceTree,
    path: Seq<char>,
    b: Seq<u8>,
    warnings: Seq<Seq<char>>,
)
    requires
        uses_keyword_end(b, 0) is Some,
        clause_end(tree, path, b, warnings).semicolon is Some,
        !clause_end(tree, path, b, warnings).state.flags.include_semicolon,
        clause_end(tree, path, b, warnings).state.entries.len() > 0,
    ensures
        dpr_uses(tree, path, b, warnings).list is Some,
        dpr_uses(tree, path, b, warnings).list.unwrap().entries == clause_end(
            tree,
            path,
            b,
            warnings,
        ).state.entries,
        Some(dpr_uses(tree, path, b, warnings).list.unwrap().semicolon) == clause_end(
            tree,
            path,
            b,
            warnings,
        ).semicolon,
{
}

/// The bytes that stand between the old entries and an entry at the
/// end of the clause.
pub open spec fn end_gap(b: Seq<u8>, list: ListModel) -> Seq<u8> {
    if list.multiline {
        line_ending(b) + utf8(list.indent)
    } else {
        seq![SPACE]
    }
}

/// The indentation of a clause is made of spaces and tabs, which are
/// their own bytes.
pub proof fn lemma_indent_bytes(b: Seq<u8>, first: int)
    requires
        0 <= first <= b.len(),
    ensures
        utf8(ascii_text(indent_bytes(b, first))) == indent_bytes(b, first),
        forall|j: int|
            0 <= j < indent_bytes(b, first).len() ==> passed_at_start(
                #[trigger] indent_bytes(b, first)[j],
            ),
{
    lemma_line_start_bounds(b, first);
    lemma_indent_end_bounds(b, line_start(b, first), first);
    let dent = indent_bytes(b, first);
    assert forall|j: int| 0 <= j < dent.len() implies (#[trigger] dent[j]) == SPACE || dent[j]
        == TAB by {
        assert(dent[j] == b[line_start(b, first) + j]);
    }
    assert(all_ascii(dent));
    lemma_utf8_ascii(dent);
}

/// The reading passes over the bytes between the old entries and an
/// entry at the end.
pub proof fn lemma_end_gap_is_passed(
    tree: SourceTree,
    path: Seq<char>,
    b: Seq<u8>,
    warnings: Seq<Seq<char>>,
)
    requires
        dpr_uses(tree, path, b, warnings).list is Some,
    ensures
        forall|k: int|
            0 <= k < end_gap(b, dpr_uses(tree, path, b, warnings).list.unwrap()).len()
                ==> passed_at_start(
                #[trigger] end_gap(b, dpr_uses(tree, path, b, warnings).list.unwrap())[k],
            ),
{
    let list = dpr_uses(tree, path, b, warnings).list.unwrap();
    lemma_list_is_clause_end(tree, path, b, warnings);
    let gap = end_gap(b, list);
    if list.multiline {
        let first = list.entries[0].start;
        assert(0 <= first <= b.len());
        lemma_indent_bytes(b, first);
        let dent = indent_bytes(b, first);
        assert(list.indent == ascii_text(dent));
        assert forall|k: int| 0 <= k < gap.len() implies passed_at_start(#[trigger] gap[k]) by {
            if k >= line_ending(b).len() {
                assert(gap[k] == dent[k - line_ending(b).len()]);
            }
        }
    }
}

/// The splice that puts an entry at the end of a clause stands before
/// the semicolon with nothing but whitespace between the two, and is
/// made of a comma, if the last entry has none, the gap, and the entry.
pub proof fn lemma_end_splice_shape(b: Seq<u8>, list: ListModel, text: Seq<u8>)
    requires
        0 <= list.semicolon < b.len(),
    ensures
        ({
            let splice = insertion_at_end(b, list, text);
            &&& 0 <= splice.0 <= list.semicolon
            &&& forall|k: int| splice.0 <= k < list.semicolon ==> ascii_space(#[trigger] b[k])
            &&& splice.1 == (if ends_with_comma(list) {
                Seq::<u8>::empty()
            } else {
                seq![COMMA]
            }) + end_gap(b, list) + text
        }),
{
    lemma_space_run(b, list.semicolon);
    let splice = insertion_at_end(b, list, text);
    assert(splice.1 =~= (if ends_with_comma(list) {
        Seq::<u8>::empty()
    } else {
        seq![COMMA]
    }) + end_gap(b, list) + text);
}

/// An entry that is put at the end of a clause is read back where the
/// new text reads up to the splice as the old text does.
pub proof fn lemma_appended_unit_core(
    tree: SourceTree,
    path: Seq<char>,
    b: Seq<u8>,
    warnings: Seq<Seq<char>>,
    name: Seq<u8>,
    shown: Seq<char>,
)
    requires
        dpr_uses(tree, path, b, warnings).list is Some,
        identifier(name),
        !utf8(shown).contains(QUOTE),
        ({
            let list = dpr_uses(tree, path, b, warnings).list.unwrap();
            let splice = insertion_at_end(b, list, utf8(entry_text_of(name, shown)));
            &&& reads_alike_up_to(
                tree,
                path,
                b,
                spliced(b, splice.0, splice.1),
                warnings,
                splice.0,
            )
            &&& ends_with_comma(list) ==> clause_place(tree, path, b, warnings, splice.0) matches Some(
                Point::Start(_),
            )
        }),
    ensures
        ({
            let list = dpr_uses(tree, path, b, warnings).list.unwrap();
            let new = with_new_entry(b, list, utf8(entry_text_of(name, shown)), None);
            let splice = insertion_at_end(b, list, utf8(entry_text_of(name, shown)));
            &&& dpr_uses(tree, path, new, warnings).list is Some
            &&& contents(dpr_uses(tree, path, new, warnings).list.unwrap().entries) == contents(
                list.entries,
            ).push(new_content(name, shown))
            &&& dpr_uses(tree, path, new, warnings).list.unwrap().semicolon == list.semicolon
                + splice.1.len()
            &&& reads_alike_up_to(tree, path, b, new, warnings, splice.0)
            &&& entries_at(clause_place(tree, path, b, warnings, splice.0).unwrap()).len()
                == list.entries.len()
        }),
{
    let list = dpr_uses(tree, path, b, warnings).list.unwrap();
    let text = utf8(entry_text_of(name, shown));
    let splice = insertion_at_end(b, list, text);
    let at = splice.0;
    let new = spliced(b, at, splice.1);
    let start = uses_keyword_end(b, 0).unwrap();
    let stack = seq![tree.canonical(path)];
    let st0 = first_state(warnings);
    let point = clause_place(tree, path, b, warnings, at).unwrap();
    let comma = ends_with_comma(list);
    let gap = end_gap(b, list);
    lemma_list_is_clause_end(tree, path, b, warnings);
    lemma_end_gap_is_passed(tree, path, b, warnings);
    lemma_end_splice_shape(b, list, text);
    lemma_entry_text_bytes(name, shown);
    assert(splice.1 == appended_bytes(!comma, gap, name, utf8(shown)));
    assert(clause_end(tree, path, b, warnings) == resumed(tree, b, at, path, stack, point)) by {
        lemma_reach_start_resumes(tree, b, start, path, stack, st0, at);
    }
    assert(clause_end(tree, path, new, warnings) == resumed(tree, new, at, path, stack, point))
        by {
        lemma_reach_start_resumes(tree, new, start, path, stack, st0, at);
    }
    lemma_appended_entry_is_read(
        tree,
        b,
        at,
        list.semicolon,
        !comma,
        gap,
        name,
        utf8(shown),
        path,
        stack,
        point,
    );
    let new_end = clause_end(tree, path, new, warnings);
    assert(contents(new_end.state.entries).len() == new_end.state.entries.len());
    assert(contents(new_end.state.entries).len() == contents(list.entries).len() + 1);
    lemma_clause_end_is_list(tree, path, new, warnings);
}

pub proof fn lemma_uses_keyword_end_bounds(b: Seq<u8>, i: int)
    requires
        0 <= i,
    ensures
        uses_keyword_end(b, i) matches Some(e) ==> i < e <= b.len(),
    decreases b.len() - i,
{
    if i < b.len() {
        lemma_comment_or_string_end_bounds(b, i);
        match comment_or_string_end(b, i) {
            Some(e) => lemma_uses_keyword_end_bounds(b, e),
            None => if ident_start(b[i]) {
                lemma_ident_end_bounds(b, i + 1);
                lemma_uses_keyword_end_bounds(b, ident_end(b, i + 1));
            } else {
                lemma_uses_keyword_end_bounds(b, i + 1);
            },
        }
    }
}

/// The bytes that are put behind the comma of an entry: bytes that the
/// reading passes over, then the entry, then a comma.
pub open spec fn inserted_bytes(gap: Seq<u8>, name: Seq<u8>, path: Seq<u8>) -> Seq<u8> {
    gap + entry_bytes(name, path) + seq![COMMA]
}

/// The state behind an entry that was read and closed by a comma.
pub open spec fn state_behind(st: DprState, name: Seq<u8>, path: Seq<u8>, from: int) -> DprState {
    state_with_entry(
        DprState {
            entries: st.entries,
            warnings: st.warnings,
            flags: flags_with_path(st.flags, Some(text_of_bytes(path))),
        },
        closed_entry(
            read_entry(name, path, from),
            Some(COMMA),
            from + entry_bytes(name, path).len(),
        ),
        Seq::empty(),
    )
}

/// Where an entry may start, a text that holds there a gap, an entry
/// and a comma is read on behind the comma with one more entry.
pub proof fn lemma_entry_with_comma_is_read(
    tree: SourceTree,
    c: Seq<u8>,
    at: int,
    gap: Seq<u8>,
    name: Seq<u8>,
    path: Seq<u8>,
    source: Seq<char>,
    stack: Seq<Seq<char>>,
    st: DprState,
)
    requires
        holds_at(c, at, inserted_bytes(gap, name, path)),
        forall|k: int| 0 <= k < gap.len() ==> passed_at_start(#[trigger] gap[k]),
        identifier(name),
        !path.contains(QUOTE),
    ensures
        dpr_fragment(tree, c, at, source, stack, None, st) == dpr_fragment(
            tree,
            c,
            at + inserted_bytes(gap, name, path).len(),
            source,
            stack,
            None,
            state_behind(st, name, path, at + gap.len()),
        ),
{
    let bytes = inserted_bytes(gap, name, path);
    let text = entry_bytes(name, path);
    let from = at + gap.len();
    let behind = from + text.len();
    assert(bytes.len() == gap.len() + text.len() + 1);
    assert forall|k: int| at <= k < from implies passed_at_start(#[trigger] c[k]) by {
        assert(c[at + (k - at)] == bytes[k - at]);
        assert(bytes[k - at] == gap[k - at]);
    }
    assert(holds_at(c, from, text)) by {
        assert forall|k: int| 0 <= k < text.len() implies c[from + k] == #[trigger] text[k] by {
            assert(c[at + (gap.len() + k)] == bytes[gap.len() + k]);
        }
    }
    assert(c[behind] == COMMA) by {
        assert(c[at + (gap.len() + text.len())] == bytes[(gap.len() + text.len()) as int]);
    }
    lemma_start_passes_run(tree, c, at, gap.len() as int, source, stack, st);
    lemma_entry_is_read(tree, c, from, name, path, source, stack, st);
}

/// A text with bytes put in holds those bytes, and behind them the bytes
/// that followed.
pub proof fn lemma_spliced(b: Seq<u8>, at: int, bytes: Seq<u8>)
    requires
        0 <= at <= b.len(),
    ensures
        holds_at(spliced(b, at, bytes), at, bytes),
        shifted(b, spliced(b, at, bytes), at, bytes.len() as int),
{
    let c = spliced(b, at, bytes);
    assert forall|k: int| 0 <= k < bytes.len() implies c[at + k] == #[trigger] bytes[k] by {}
    assert forall|k: int| at <= k < b.len() implies #[trigger] b[k] == c[k + bytes.len()] by {}
}

/// Where an entry may start, the new text, which holds one more entry
/// with its comma, is read like the old text, but for that entry, which
/// comes first.
pub proof fn lemma_inserted_entry_is_read(
    tree: SourceTree,
    b: Seq<u8>,
    at: int,
    gap: Seq<u8>,
    name: Seq<u8>,
    path: Seq<u8>,
    source: Seq<char>,
    stack: Seq<Seq<char>>,
    st: DprState,
)
    requires
        0 <= at <= b.len(),
        forall|k: int| 0 <= k < gap.len() ==> passed_at_start(#[trigger] gap[k]),
        identifier(name),
        !path.contains(QUOTE),
    ensures
        ({
            let bytes = inserted_bytes(gap, name, path);
            let old = dpr_fragment(tree, b, at, source, stack, None, st);
            let new = dpr_fragment(tree, spliced(b, at, bytes), at, source, stack, None, st);
            let tail = added(old.state.entries, st.entries.len() as int);
            &&& new.semicolon == moved(old.semicolon, bytes.len() as int)
            &&& new.state.flags.include_semicolon == old.state.flags.include_semicolon
            &&& contents(old.state.entries) == contents(st.entries) + tail
            &&& contents(new.state.entries) == contents(st.entries).push(
                content_of(read_entry(name, path, 0)),
            ) + tail
        }),
{
    let bytes = inserted_bytes(gap, name, path);
    let c = spliced(b, at, bytes);
    lemma_spliced(b, at, bytes);
    lemma_entry_with_comma_is_read(tree, c, at, gap, name, path, source, stack, st);
    let st3 = state_behind(st, name, path, at + gap.len());
    shift_fragment(
        tree,
        b,
        c,
        at,
        bytes.len() as int,
        at,
        source,
        stack,
        None,
        None,
        st,
        st3,
    );
    assert(contents(st3.entries) =~= contents(st.entries).push(
        content_of(read_entry(name, path, 0)),
    ));
}

/// The bytes between a comma and the entry that is put behind it are
/// bytes that the reading passes over.
pub proof fn lemma_separator_is_passed(
    tree: SourceTree,
    path: Seq<char>,
    b: Seq<u8>,
    warnings: Seq<Seq<char>>,
    after: Seq<u8>,
)
    requires
        dpr_uses(tree, path, b, warnings).list is Some,
    ensures
        forall|k: int|
            0 <= k < separator_before(
                b,
                dpr_uses(tree, path, b, warnings).list.unwrap(),
                after,
            ).len() ==> passed_at_start(
                #[trigger] separator_before(
                    b,
                    dpr_uses(tree, path, b, warnings).list.unwrap(),
                    after,
                )[k],
            ),
{
    let list = dpr_uses(tree, path, b, warnings).list.unwrap();
    let sep = separator_before(b, list, after);
    lemma_leading_spaces(after);
    let n = leading_space_len(after);
    lemma_end_gap_is_passed(tree, path, b, warnings);
    assert forall|k: int| 0 <= k < sep.len() implies passed_at_start(#[trigger] sep[k]) by {
        if n == after.len() {
            assert(ascii_space(after[k]));
        } else if n > 0 {
            assert(sep[k] == after[k]);
            assert(ascii_space(after[k]));
        } else if list.multiline {
            assert(sep[k] == end_gap(b, list)[k]);
        }
    }
}

pub proof fn lemma_leading_spaces(s: Seq<u8>)
    ensures
        0 <= leading_space_len(s) <= s.len(),
        forall|k: int| 0 <= k < leading_space_len(s) ==> ascii_space(#[trigger] s[k]),
    decreases s.len(),
{
    if s.len() > 0 && ascii_space(s[0]) {
        let t = s.drop_first();
        lemma_leading_spaces(t);
        assert forall|k: int| 0 <= k < leading_space_len(s) implies ascii_space(
            #[trigger] s[k],
        ) by {
            if k > 0 {
                assert(s[k] == t[k - 1]);
            }
        }
    }
}

/// An entry that is put behind another entry of a clause is read back
/// where the new text reads up to the splice as the old text does.
#[verifier::spinoff_prover]
#[verifier::rlimit(60)]
pub proof fn lemma_inserted_unit_core(
    tree: SourceTree,
    path: Seq<char>,
    b: Seq<u8>,
    warnings: Seq<Seq<char>>,
    name: Seq<u8>,
    shown: Seq<char>,
    idx: int,
)
    requires
        dpr_uses(tree, path, b, warnings).list is Some,
        identifier(name),
        !utf8(shown).contains(QUOTE),
        ({
            let list = dpr_uses(tree, path, b, warnings).list.unwrap();
            let found = insertion_after(b, list, idx, utf8(entry_text_of(name, shown)));
            &&& found is Some
            &&& reads_alike_up_to(
                tree,
                path,
                b,
                spliced(b, found.unwrap().0, found.unwrap().1),
                warnings,
                found.unwrap().0,
            )
            &&& clause_place(tree, path, b, warnings, found.unwrap().0) matches Some(
                Point::Start(_),
            )
        }),
    ensures
        ({
            let list = dpr_uses(tree, path, b, warnings).list.unwrap();
            let text = utf8(entry_text_of(name, shown));
            let new = with_new_entry(b, list, text, Some(idx));
            let at = insertion_after(b, list, idx, text).unwrap().0;
            let before = entries_at(clause_place(tree, path, b, warnings, at).unwrap()).len() as int;
            &&& dpr_uses(tree, path, new, warnings).list is Some
            &&& 0 <= before <= list.entries.len()
            &&& contents(dpr_uses(tree, path, new, warnings).list.unwrap().entries) == contents(
                list.entries,
            ).insert(before, new_content(name, shown))
            &&& dpr_uses(tree, path, new, warnings).list.unwrap().semicolon == list.semicolon
                + insertion_after(b, list, idx, text).unwrap().1.len()
        }),
{
    let list = dpr_uses(tree, path, b, warnings).list.unwrap();
    let text = utf8(entry_text_of(name, shown));
    let found = insertion_after(b, list, idx, text).unwrap();
    let at = found.0;
    let new = spliced(b, at, found.1);
    let start = uses_keyword_end(b, 0).unwrap();
    let stack = seq![tree.canonical(path)];
    let st0 = first_state(warnings);
    let point = clause_place(tree, path, b, warnings, at).unwrap();
    let st = match point {
        Point::Start(st) => st,
        Point::Behind(st, _, _) => st,
    };
    lemma_list_is_clause_end(tree, path, b, warnings);
    let p = list.entries[idx].delimiter_pos.unwrap();
    let next_start = list.entries[idx + 1].start;
    let gap = separator_before(b, list, b.subrange(p + 1, next_start));
    lemma_separator_is_passed(tree, path, b, warnings, b.subrange(p + 1, next_start));
    lemma_entry_text_bytes(name, shown);
    assert(found.1 =~= inserted_bytes(gap, name, utf8(shown)));
    assert(clause_end(tree, path, b, warnings) == dpr_fragment(
        tree,
        b,
        at,
        path,
        stack,
        None,
        st,
    )) by {
        lemma_reach_start_resumes(tree, b, start, path, stack, st0, at);
    }
    assert(clause_end(tree, path, new, warnings) == dpr_fragment(
        tree,
        new,
        at,
        path,
        stack,
        None,
        st,
    )) by {
        lemma_reach_start_resumes(tree, new, start, path, stack, st0, at);
    }
    lemma_inserted_entry_is_read(tree, b, at, gap, name, utf8(shown), path, stack, st);
    let old_end = clause_end(tree, path, b, warnings);
    let new_end = clause_end(tree, path, new, warnings);
    let tail = added(old_end.state.entries, st.entries.len() as int);
    let before = st.entries.len() as int;
    assert(contents(old_end.state.entries).len() == old_end.state.entries.len());
    assert(contents(new_end.state.entries).len() == new_end.state.entries.len());
    assert(contents(st.entries).len() == st.entries.len());
    assert((contents(st.entries) + tail).insert(before, new_content(name, shown)) =~= contents(
        st.entries,
    ).push(new_content(name, shown)) + tail);
    lemma_clause_end_is_list(tree, path, new, warnings);
}

/// How many of the entries have the name `name`, in any case.
pub open spec fn name_count(entries: Seq<EntryContent>, name: Seq<char>) -> nat
    decreases entries.len(),
{
    if entries.len() == 0 {
        0
    } else {
        name_count(entries.drop_last(), name) + if same_ignoring_case(
            entries.last().name,
            name,
        ) {
            1nat
        } else {
            0nat
        }
    }
}

pub proof fn lemma_name_count_zero(entries: Seq<EntryModel>, name: Seq<char>)
    requires
        !has_name(entries, name),
    ensures
        name_count(contents(entries), name) == 0,
    decreases entries.len(),
{
    if entries.len() > 0 {
        assert(contents(entries).drop_last() =~= contents(entries.drop_last()));
        assert(contents(entries).last().name == entries[entries.len() - 1].name);
        assert forall|k: int| 0 <= k < entries.drop_last().len() implies !same_ignoring_case(
            (#[trigger] entries.drop_last()[k]).name,
            name,
        ) by {
            assert(entries.drop_last()[k] == entries[k]);
        }
        lemma_name_count_zero(entries.drop_last(), name);
    }
}

pub proof fn lemma_name_count_insert(
    entries: Seq<EntryContent>,
    at: int,
    new: EntryContent,
    name: Seq<char>,
)
    requires
        0 <= at <= entries.len(),
    ensures
        name_count(entries.insert(at, new), name) == name_count(entries, name)
            + if same_ignoring_case(new.name, name) {
            1nat
        } else {
            0nat
        },
    decreases entries.len() - at,
{
    let more = entries.insert(at, new);
    if at == entries.len() {
        assert(more.drop_last() =~= entries);
        assert(more.last() == new);
    } else {
        assert(more.drop_last() =~= entries.drop_last().insert(at, new));
        assert(more.last() == entries.last());
        lemma_name_count_insert(entries.drop_last(), at, new, name);
    }
}

/// A clause that did not hold the name of the new entry holds it once
/// when the entry has been put among its entries.
pub proof fn lemma_new_name_stands_once(
    before: Seq<EntryModel>,
    after: Seq<EntryModel>,
    at: int,
    new: EntryContent,
)
    requires
        0 <= at <= before.len(),
        contents(after) == contents(before).insert(at, new),
        !has_name(before, new.name),
    ensures
        name_count(contents(after), new.name) == 1,
        has_name(after, new.name),
{
    lemma_name_count_zero(before, new.name);
    assert(contents(before).len() == before.len());
    lemma_name_count_insert(contents(before), at, new, new.name);
    assert(same_ignoring_case(new.name, new.name));
    assert(contents(after)[at] == new);
    assert(contents(after).len() == after.len());
    assert(content_of(after[at]) == new);
    assert(same_ignoring_case(after[at].name, new.name));
}

/// A name that a clause held is held by the clause with one more entry.
pub proof fn lemma_old_names_stay(
    before: Seq<EntryModel>,
    after: Seq<EntryModel>,
    at: int,
    new: EntryContent,
    name: Seq<char>,
)
    requires
        0 <= at <= before.len(),
        contents(after) == contents(before).insert(at, new),
        has_name(before, name),
    ensures
        has_name(after, name),
{
    let k = choose|k: int|
        0 <= k < before.len() && same_ignoring_case((#[trigger] before[k]).name, name);
    let j = if k < at {
        k
    } else {
        k + 1
    };
    assert(contents(before).len() == before.len());
    assert(contents(after).len() == after.len());
    assert(contents(after)[j] == contents(before)[k]);
    assert(content_of(after[j]) == content_of(before[k]));
    assert(same_ignoring_case(after[j].name, name));
}

/// The word `uses` ends with a letter.
pub proof fn lemma_uses_keyword_last_byte(b: Seq<u8>, i: int)
    requires
        0 <= i,
        uses_keyword_end(b, i) is Some,
    ensures
        uses_keyword_end(b, i).unwrap() >= 1,
        ident_continue(b[uses_keyword_end(b, i).unwrap() - 1]),
    decreases b.len() - i,
{
    if i < b.len() {
        lemma_comment_or_string_end_bounds(b, i);
        match comment_or_string_end(b, i) {
            Some(e) => lemma_uses_keyword_last_byte(b, e),
            None => if ident_start(b[i]) {
                let next = ident_end(b, i + 1);
                lemma_ident_end_bounds(b, i + 1);
                if is_keyword(b.subrange(i, next), "uses"@) {
                    if next > i + 1 {
                        assert(ident_continue(b[next - 1]));
                    }
                } else {
                    lemma_uses_keyword_last_byte(b, next);
                }
            } else {
                lemma_uses_keyword_last_byte(b, i + 1);
            },
        }
    }
}

/// A text that reads like another up to the splice, byte for byte, and
/// fits the place of the splice, is read alike up to the splice.
pub proof fn lemma_reads_alike(
    tree: SourceTree,
    path: Seq<char>,
    b: Seq<u8>,
    new: Seq<u8>,
    warnings: Seq<Seq<char>>,
    at: int,
)
    requires
        prefix_alike(b, new, at),
        clause_place(tree, path, b, warnings, at) is Some,
        uses_keyword_end(b, 0).unwrap() < at,
        fits_place(new[at], clause_place(tree, path, b, warnings, at).unwrap()),
        uncut(b, new, at),
        no_new_directive(b, new, at),
    ensures
        reads_alike_up_to(tree, path, b, new, warnings, at),
{
    let start = uses_keyword_end(b, 0).unwrap();
    pre_uses_keyword_end(b, new, at, 0);
    pre_reach_start(
        tree,
        b,
        new,
        start,
        path,
        seq![tree.canonical(path)],
        first_state(warnings),
        at,
    );
}

/// The bytes between the old entries and an entry at the end are blanks.
pub proof fn lemma_end_gap_is_blank(
    tree: SourceTree,
    path: Seq<char>,
    b: Seq<u8>,
    warnings: Seq<Seq<char>>,
)
    requires
        dpr_uses(tree, path, b, warnings).list is Some,
    ensures
        end_gap(b, dpr_uses(tree, path, b, warnings).list.unwrap()).len() > 0,
        forall|k: int|
            0 <= k < end_gap(b, dpr_uses(tree, path, b, warnings).list.unwrap()).len() ==> blank(
                #[trigger] end_gap(b, dpr_uses(tree, path, b, warnings).list.unwrap())[k],
            ),
{
    let list = dpr_uses(tree, path, b, warnings).list.unwrap();
    lemma_list_is_clause_end(tree, path, b, warnings);
    let gap = end_gap(b, list);
    if list.multiline {
        let first = list.entries[0].start;
        assert(0 <= first <= b.len());
        lemma_indent_bytes(b, first);
        lemma_line_start_bounds(b, first);
        lemma_indent_end_bounds(b, line_start(b, first), first);
        let dent = indent_bytes(b, first);
        assert(list.indent == ascii_text(dent));
        assert forall|k: int| 0 <= k < gap.len() implies blank(#[trigger] gap[k]) by {
            if k >= line_ending(b).len() {
                assert(gap[k] == dent[k - line_ending(b).len()]);
                assert(dent[k - line_ending(b).len()] == b[line_start(b, first) + (k
                    - line_ending(b).len())]);
            }
        }
    }
}

/// An entry that is put at the end of a clause is read back: the clause
/// of the new text holds the entries of the old one, as they were and in
/// their order, and behind them the new entry.
///
/// This holds where the name is an identifier and the shown path holds
/// no quote; where the reading of the old clause comes by the place of
/// the splice, which it does unless a line comment stands between the
/// last entry and the semicolon, and comes by it where an entry may
/// start if the last entry has its comma; and where the new bytes make
/// no include directive of a comment before them.
pub proof fn lemma_appended_unit_is_read_back(
    tree: SourceTree,
    path: Seq<char>,
    b: Seq<u8>,
    warnings: Seq<Seq<char>>,
    name: Seq<u8>,
    shown: Seq<char>,
)
    requires
        dpr_uses(tree, path, b, warnings).list is Some,
        identifier(name),
        !utf8(shown).contains(QUOTE),
        ({
            let list = dpr_uses(tree, path, b, warnings).list.unwrap();
            let splice = insertion_at_end(b, list, utf8(entry_text_of(name, shown)));
            &&& clause_place(tree, path, b, warnings, splice.0) is Some
            &&& no_new_directive(b, spliced(b, splice.0, splice.1), splice.0)
            &&& ends_with_comma(list) ==> clause_place(tree, path, b, warnings, splice.0) matches Some(
                Point::Start(_),
            )
        }),
    ensures
        ({
            let list = dpr_uses(tree, path, b, warnings).list.unwrap();
            let new = with_new_entry(b, list, utf8(entry_text_of(name, shown)), None);
            let splice = insertion_at_end(b, list, utf8(entry_text_of(name, shown)));
            &&& dpr_uses(tree, path, new, warnings).list is Some
            &&& contents(dpr_uses(tree, path, new, warnings).list.unwrap().entries) == contents(
                list.entries,
            ).push(new_content(name, shown))
            &&& dpr_uses(tree, path, new, warnings).list.unwrap().semicolon == list.semicolon
                + splice.1.len()
            &&& reads_alike_up_to(tree, path, b, new, warnings, splice.0)
            &&& entries_at(clause_place(tree, path, b, warnings, splice.0).unwrap()).len()
                == list.entries.len()
        }),
{
    let list = dpr_uses(tree, path, b, warnings).list.unwrap();
    let text = utf8(entry_text_of(name, shown));
    let splice = insertion_at_end(b, list, text);
    let at = splice.0;
    let new = spliced(b, at, splice.1);
    let start = uses_keyword_end(b, 0).unwrap();
    let stack = seq![tree.canonical(path)];
    let st0 = first_state(warnings);
    let point = clause_place(tree, path, b, warnings, at).unwrap();
    let gap = end_gap(b, list);
    lemma_list_is_clause_end(tree, path, b, warnings);
    lemma_end_gap_is_blank(tree, path, b, warnings);
    lemma_end_splice_shape(b, list, text);
    lemma_spliced(b, at, splice.1);
    assert(start < at) by {
        if start >= at {
            assert forall|k: int| at <= k < list.semicolon implies passed_at_start(
                #[trigger] b[k],
            ) by {
                assert(ascii_space(b[k]));
            }
            lemma_start_to_semicolon(tree, b, at, list.semicolon, path, stack, st0);
        }
    }
    assert(splice.1.len() > 0);
    assert(new[at] == splice.1[0]) by {
        assert(new[at + 0] == splice.1[0]);
    }
    assert(splice.1[0] == COMMA || blank(splice.1[0])) by {
        if ends_with_comma(list) {
            assert(splice.1[0] == gap[0]);
        }
    }
    assert(prefix_alike(b, new, at)) by {
        assert forall|k: int| 0 <= k < at implies #[trigger] b[k] == new[k] by {}
    }
    assert(uncut(b, new, at)) by {
        if at < list.semicolon {
            assert(ascii_space(b[at]));
        }
    }
    lemma_reads_alike(tree, path, b, new, warnings, at);
    lemma_appended_unit_core(tree, path, b, warnings, name, shown);
}

/// The bytes between a comma and the entry that is put behind it open
/// nothing.
pub proof fn lemma_separator_opens_nothing(
    tree: SourceTree,
    path: Seq<char>,
    b: Seq<u8>,
    warnings: Seq<Seq<char>>,
    after: Seq<u8>,
)
    requires
        dpr_uses(tree, path, b, warnings).list is Some,
    ensures
        forall|k: int|
            0 <= k < separator_before(
                b,
                dpr_uses(tree, path, b, warnings).list.unwrap(),
                after,
            ).len() ==> opens_nothing(
                #[trigger] separator_before(
                    b,
                    dpr_uses(tree, path, b, warnings).list.unwrap(),
                    after,
                )[k],
            ),
{
    let list = dpr_uses(tree, path, b, warnings).list.unwrap();
    let sep = separator_before(b, list, after);
    lemma_leading_spaces(after);
    let n = leading_space_len(after);
    lemma_end_gap_is_blank(tree, path, b, warnings);
    assert forall|k: int| 0 <= k < sep.len() implies opens_nothing(#[trigger] sep[k]) by {
        if n == after.len() {
            assert(ascii_space(after[k]));
        } else if n > 0 {
            assert(sep[k] == after[k]);
            assert(ascii_space(after[k]));
        } else if list.multiline {
            assert(sep[k] == end_gap(b, list)[k]);
            assert(blank(end_gap(b, list)[k]));
        }
    }
}

/// The reading of a clause comes by the place of a splice behind an
/// entry where an entry may start, with the entries up to that entry.
pub proof fn lemma_anchor_place(
    tree: SourceTree,
    path: Seq<char>,
    b: Seq<u8>,
    warnings: Seq<Seq<char>>,
    text: Seq<u8>,
    idx: int,
)
    requires
        dpr_uses(tree, path, b, warnings).list is Some,
        insertion_after(b, dpr_uses(tree, path, b, warnings).list.unwrap(), idx, text) is Some,
    ensures
        ({
            let list = dpr_uses(tree, path, b, warnings).list.unwrap();
            let at = insertion_after(b, list, idx, text).unwrap().0;
            &&& clause_place(tree, path, b, warnings, at) matches Some(Point::Start(_))
            &&& entries_at(clause_place(tree, path, b, warnings, at).unwrap()).len() == idx + 1
        }),
{
    let list = dpr_uses(tree, path, b, warnings).list.unwrap();
    let start = uses_keyword_end(b, 0).unwrap();
    let stack = seq![tree.canonical(path)];
    let st0 = first_state(warnings);
    lemma_list_is_clause_end(tree, path, b, warnings);
    lemma_uses_keyword_end_bounds(b, 0);
    let p = list.entries[idx].delimiter_pos.unwrap();
    crate::dpr_place::lemma_start_finds(tree, b, start, path, stack, st0, idx, p);
    let point = reach_start(tree, b, start, path, stack, st0, p + 1);
    match point {
        Some(Point::Start(st)) => {
            if st.entries.len() > idx + 1 {
                assert(st.entries[idx + 1].start <= p);
                assert(list.entries[idx + 1] == st.entries[idx + 1]);
            }
        },
        _ => {},
    }
}

/// An entry that is put behind another entry of a clause is read back:
/// the clause of the new text holds the entries of the old one, as they
/// were and in their order, and right behind that other entry the new
/// one.
///
/// This holds where the name is an identifier and the shown path holds
/// no quote, and where the new bytes make no include directive of a
/// comment before them.
pub proof fn lemma_inserted_unit_is_read_back(
    tree: SourceTree,
    path: Seq<char>,
    b: Seq<u8>,
    warnings: Seq<Seq<char>>,
    name: Seq<u8>,
    shown: Seq<char>,
    idx: int,
)
    requires
        dpr_uses(tree, path, b, warnings).list is Some,
        identifier(name),
        !utf8(shown).contains(QUOTE),
        ({
            let list = dpr_uses(tree, path, b, warnings).list.unwrap();
            let found = insertion_after(b, list, idx, utf8(entry_text_of(name, shown)));
            &&& found is Some
            &&& no_new_directive(
                b,
                spliced(b, found.unwrap().0, found.unwrap().1),
                found.unwrap().0,
            )
        }),
    ensures
        ({
            let list = dpr_uses(tree, path, b, warnings).list.unwrap();
            let text = utf8(entry_text_of(name, shown));
            let new = with_new_entry(b, list, text, Some(idx));
            &&& dpr_uses(tree, path, new, warnings).list is Some
            &&& 0 <= idx + 1 <= list.entries.len()
            &&& contents(dpr_uses(tree, path, new, warnings).list.unwrap().entries) == contents(
                list.entries,
            ).insert(idx + 1, new_content(name, shown))
            &&& dpr_uses(tree, path, new, warnings).list.unwrap().semicolon == list.semicolon
                + insertion_after(b, list, idx, text).unwrap().1.len()
            &&& reads_alike_up_to(
                tree,
                path,
                b,
                new,
                warnings,
                insertion_after(b, list, idx, text).unwrap().0,
            )
            &&& entries_at(
                clause_place(
                    tree,
                    path,
                    b,
                    warnings,
                    insertion_after(b, list, idx, text).unwrap().0,
                ).unwrap(),
            ).len() == idx + 1
        }),
{
    let list = dpr_uses(tree, path, b, warnings).list.unwrap();
    let text = utf8(entry_text_of(name, shown));
    let found = insertion_after(b, list, idx, text).unwrap();
    let at = found.0;
    let new = spliced(b, at, found.1);
    let start = uses_keyword_end(b, 0).unwrap();
    let stack = seq![tree.canonical(path)];
    let st0 = first_state(warnings);
    lemma_anchor_place(tree, path, b, warnings, text, idx);
    let point = clause_place(tree, path, b, warnings, at).unwrap();
    lemma_list_is_clause_end(tree, path, b, warnings);
    let p = list.entries[idx].delimiter_pos.unwrap();
    let next_start = list.entries[idx + 1].start;
    let after = b.subrange(p + 1, next_start);
    let gap = separator_before(b, list, after);
    assert(b[p] == COMMA && 0 <= p < b.len()) by {
        assert(entries_fit(list.entries, b));
        let e = list.entries[idx];
        assert(e.delimiter == Some(b[p]));
    }
    lemma_uses_keyword_last_byte(b, 0);
    lemma_uses_keyword_end_bounds(b, 0);
    assert(start < at) by {
        if start == at {
            assert(ident_continue(b[start - 1]));
        }
    }
    assert(at < b.len()) by {
        lemma_reach_start_resumes(tree, b, start, path, stack, st0, at);
    }
    lemma_spliced(b, at, found.1);
    lemma_separator_opens_nothing(tree, path, b, warnings, after);
    lemma_entry_text_bytes(name, shown);
    assert(found.1 =~= inserted_bytes(gap, name, utf8(shown)));
    assert(new[at] == found.1[0]) by {
        assert(new[at + 0] == found.1[0]);
    }
    assert(opens_nothing(found.1[0])) by {
        if gap.len() > 0 {
            assert(found.1[0] == gap[0]);
        } else {
            assert(found.1[0] == name[0]);
        }
    }
    assert(prefix_alike(b, new, at)) by {
        assert forall|k: int| 0 <= k < at implies #[trigger] b[k] == new[k] by {}
    }
    lemma_reads_alike(tree, path, b, new, warnings, at);
    lemma_inserted_unit_core(tree, path, b, warnings, name, shown, idx);
}

/// The reading of a clause comes by the semicolon that closes it.
pub proof fn lemma_semicolon_is_reached(
    tree: SourceTree,
    path: Seq<char>,
    b: Seq<u8>,
    warnings: Seq<Seq<char>>,
)
    requires
        dpr_uses(tree, path, b, warnings).list is Some,
    ensures
        clause_place(
            tree,
            path,
            b,
            warnings,
            dpr_uses(tree, path, b, warnings).list.unwrap().semicolon,
        ) is Some,
{
    lemma_list_is_clause_end(tree, path, b, warnings);
    lemma_uses_keyword_end_bounds(b, 0);
    crate::dpr_place::lemma_start_reaches_end(
        tree,
        b,
        uses_keyword_end(b, 0).unwrap(),
        path,
        seq![tree.canonical(path)],
        first_state(warnings),
    );
}

/// The clause that is read from a text does not depend on the warnings
/// that were given before.
pub proof fn lemma_list_ignores_warnings(
    tree: SourceTree,
    path: Seq<char>,
    b: Seq<u8>,
    warnings1: Seq<Seq<char>>,
    warnings2: Seq<Seq<char>>,
)
    ensures
        dpr_uses(tree, path, b, warnings1).list == dpr_uses(tree, path, b, warnings2).list,
{
    match uses_keyword_end(b, 0) {
        Some(start) => {
            crate::dpr_shift::same_fragment(
                tree,
                b,
                start,
                path,
                seq![tree.canonical(path)],
                None,
                first_state(warnings1),
                first_state(warnings2),
            );
        },
        None => {},
    }
}

/// The path of a unit as an entry shows it.
pub open spec fn shown_path(unit: UnitModel, path: Seq<char>, list: ListModel) -> Seq<char> {
    with_separator(relative_path_text(unit.path, path), separator_of(list))
}

/// The offset at which the new entry comes to stand among the entries:
/// right behind its anchor where it is put behind one, else behind all.
pub open spec fn new_entry_index(b: Seq<u8>, list: ListModel, text: Seq<u8>, after: Option<int>) -> int {
    match after {
        Some(idx) => if insertion_after(b, list, idx, text) is Some {
            idx + 1
        } else {
            list.entries.len() as int
        },
        None => list.entries.len() as int,
    }
}

/// Whether the entry is put behind its anchor.
pub open spec fn put_behind_anchor(b: Seq<u8>, list: ListModel, text: Seq<u8>, after: Option<int>) -> bool {
    after is Some && insertion_after(b, list, after.unwrap(), text) is Some
}

/// Whether nothing stands in the way of reading back the entry `text`
/// once it is put into the clause: the new bytes make no include
/// directive of a comment before them; and, for an entry that is put at
/// the end, the reading of the old clause comes by the place of the
/// splice, and comes by it where an entry may start if the last entry has
/// its comma.
pub open spec fn plain_splice(
    tree: SourceTree,
    path: Seq<char>,
    b: Seq<u8>,
    list: ListModel,
    text: Seq<u8>,
    after: Option<int>,
    warnings: Seq<Seq<char>>,
) -> bool {
    let splice = insertion(b, list, text, after);
    &&& no_new_directive(b, spliced(b, splice.0, splice.1), splice.0)
    &&& !put_behind_anchor(b, list, text, after) ==> {
        &&& clause_place(tree, path, b, warnings, splice.0) is Some
        &&& ends_with_comma(list) ==> clause_place(tree, path, b, warnings, splice.0) matches Some(
            Point::Start(_),
        )
    }
}

/// The entry of a unit is read back: when it has been put into the
/// clause of a project file, behind the entry `after` where that can be
/// done and else at the end, the clause of the new text holds the entries
/// that the old one held, as they were and in their order, and among them
/// the entry of the unit: right behind its anchor, or behind all of them.
///
/// This holds where the name of the unit is an identifier and its shown
/// path holds no quote, and where nothing stands in the way of reading
/// the entry back.
pub proof fn lemma_entry_is_read_back(
    tree: SourceTree,
    path: Seq<char>,
    b: Seq<u8>,
    list: ListModel,
    unit: UnitModel,
    after: Option<int>,
    warnings: Seq<Seq<char>>,
    name: Seq<u8>,
    before: Seq<Seq<char>>,
)
    requires
        dpr_uses(tree, path, b, before).list == Some(list),
        unit.name == ascii_text(name),
        identifier(name),
        !utf8(shown_path(unit, path, list)).contains(QUOTE),
        plain_splice(
            tree,
            path,
            b,
            list,
            utf8(entry_text(unit.name, unit.path, path, list)),
            after,
            warnings,
        ),
    ensures
        ({
            let text = utf8(entry_text(unit.name, unit.path, path, list));
            let read = dpr_uses(tree, path, with_new_entry(b, list, text, after), warnings);
            let at = new_entry_index(b, list, text, after);
            &&& read.list is Some
            &&& 0 <= at <= list.entries.len()
            &&& contents(read.list.unwrap().entries) == contents(list.entries).insert(
                at,
                new_content(name, shown_path(unit, path, list)),
            )
            &&& read.list.unwrap().semicolon == list.semicolon + insertion(
                b,
                list,
                text,
                after,
            ).1.len()
            &&& reads_alike_up_to(
                tree,
                path,
                b,
                with_new_entry(b, list, text, after),
                warnings,
                insertion(b, list, text, after).0,
            )
            &&& entries_at(
                clause_place(tree, path, b, warnings, insertion(b, list, text, after).0).unwrap(),
            ).len() >= 1
        }),
{
    let shown = shown_path(unit, path, list);
    let text = utf8(entry_text(unit.name, unit.path, path, list));
    lemma_list_ignores_warnings(tree, path, b, before, warnings);
    assert(entry_text(unit.name, unit.path, path, list) == entry_text_of(name, shown));
    if put_behind_anchor(b, list, text, after) {
        lemma_inserted_unit_is_read_back(tree, path, b, warnings, name, shown, after.unwrap());
    } else {
        lemma_appended_unit_is_read_back(tree, path, b, warnings, name, shown);
        assert(contents(list.entries).push(new_content(name, shown)) =~= contents(
            list.entries,
        ).insert(list.entries.len() as int, new_content(name, shown)));
        assert(contents(list.entries).len() == list.entries.len());
    }
}

/// A step of the editing is read back: when a unit has been put into
/// the clause of a project file and the clause is read again from the
/// new text, the reading succeeds, and the clause holds the entries that
/// it held, as they were and in their order, and among them the entry of
/// the unit: right behind its anchor, or behind all of them.
///
/// This holds where the name of the unit is an identifier and its shown
/// path holds no quote, and where nothing stands in the way of reading
/// the entry back.
pub proof fn lemma_step_is_read_back(
    tree: SourceTree,
    path: Seq<char>,
    unit: UnitModel,
    cur: Cursor,
    log: EditLog,
    name: Seq<u8>,
    before: Seq<Seq<char>>,
)
    requires
        dpr_uses(tree, path, cur.bytes, before).list == Some(cur.list),
        unit.name == ascii_text(name),
        identifier(name),
        !utf8(shown_path(unit, path, cur.list)).contains(QUOTE),
        plain_splice(
            tree,
            path,
            cur.bytes,
            cur.list,
            utf8(entry_text(unit.name, unit.path, path, cur.list)),
            anchor_of(cur.list.entries, cur.last),
            log.warnings,
        ),
    ensures
        ({
            let text = utf8(entry_text(unit.name, unit.path, path, cur.list));
            let after = anchor_of(cur.list.entries, cur.last);
            let end = inserted(tree, path, unit, cur, log);
            let at = new_entry_index(cur.bytes, cur.list, text, after);
            &&& !end.failed
            &&& 0 <= at <= cur.list.entries.len()
            &&& contents(end.cursor.list.entries) == contents(cur.list.entries).insert(
                at,
                new_content(name, shown_path(unit, path, cur.list)),
            )
            &&& dpr_uses(tree, path, end.cursor.bytes, log.warnings).list == Some(end.cursor.list)
        }),
{
    lemma_entry_is_read_back(
        tree,
        path,
        cur.bytes,
        cur.list,
        unit,
        anchor_of(cur.list.entries, cur.last),
        log.warnings,
        name,
        before,
    );
}

} // verus!
