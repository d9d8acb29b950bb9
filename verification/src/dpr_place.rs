use vstd::prelude::*;

use crate::dpr_parse::{
    anchor_at, closed_entry, declared_path, dpr_after_entry, dpr_fragment, flags_with_path,
    include_entries, lemma_declared_path_bounds, lemma_include_entries_anchored, state_with_entry,
    DprState, EntryModel,
};
use crate::dpr_roundtrip::{reach_behind, reach_start, Point};
use crate::pas_lex::{
    blank, comment_or_string_end, ident_end, ident_start, ident_text, include_directive,
    lemma_comment_or_string_end_bounds, lemma_ident_end_bounds, lemma_include_directive_bounds,
    COMMA, SEMICOLON,
};
use crate::source_tree::SourceTree;

verus! {

/// The entries `all` start with the entries `first`.
pub open spec fn starts_with_entries(all: Seq<EntryModel>, first: Seq<EntryModel>) -> bool {
    first.len() <= all.len() && forall|j: int| 0 <= j < first.len() ==> all[j] == #[trigger] first[j]
}

/// A reading keeps the entries with which it starts.
pub proof fn lemma_fragment_keeps(
    tree: SourceTree,
    b: Seq<u8>,
    i: int,
    source: Seq<char>,
    stack: Seq<Seq<char>>,
    over: Option<int>,
    st: DprState,
)
    requires
        0 <= i <= b.len(),
    ensures
        starts_with_entries(
            dpr_fragment(tree, b, i, source, stack, over, st).state.entries,
            st.entries,
        ),
    decreases b.len() - i, 0int,
{
    let all = dpr_fragment(tree, b, i, source, stack, over, st).state.entries;
    if i < b.len() {
        if blank(b[i]) {
            lemma_fragment_keeps(tree, b, i + 1, source, stack, over, st);
        } else {
            lemma_include_directive_bounds(b, i);
            lemma_comment_or_string_end_bounds(b, i);
            match include_directive(b, i) {
                Some((name, end)) => {
                    let got = include_entries(
                        tree,
                        name,
                        anchor_at(over, i),
                        source,
                        stack,
                        st.warnings,
                        st.flags,
                    );
                    let next = DprState {
                        entries: st.entries + got.entries,
                        warnings: got.warnings,
                        flags: got.flags,
                    };
                    lemma_fragment_keeps(tree, b, end, source, stack, over, next);
                    assert forall|j: int| 0 <= j < st.entries.len() implies all[j]
                        == #[trigger] st.entries[j] by {
                        assert(next.entries[j] == st.entries[j]);
                    }
                },
                None => match comment_or_string_end(b, i) {
                    Some(e) => {
                        lemma_fragment_keeps(tree, b, e, source, stack, over, st);
                    },
                    None => if b[i] == SEMICOLON {
                    } else if !ident_start(b[i]) {
                        lemma_fragment_keeps(tree, b, i + 1, source, stack, over, st);
                    } else {
                        let next = ident_end(b, i + 1);
                        let (in_path, after) = declared_path(b, next);
                        lemma_ident_end_bounds(b, i + 1);
                        lemma_declared_path_bounds(b, next);
                        lemma_after_keeps(
                            tree,
                            b,
                            after,
                            source,
                            stack,
                            over,
                            DprState {
                                entries: st.entries,
                                warnings: st.warnings,
                                flags: flags_with_path(st.flags, in_path),
                            },
                            EntryModel {
                                name: ident_text(b, i),
                                in_path,
                                start: anchor_at(over, i),
                                delimiter: None,
                                delimiter_pos: None,
                                from_include: over is Some,
                            },
                            Seq::empty(),
                        );
                    },
                },
            }
        }
    }
}

pub proof fn lemma_after_keeps(
    tree: SourceTree,
    b: Seq<u8>,
    i: int,
    source: Seq<char>,
    stack: Seq<Seq<char>>,
    over: Option<int>,
    st: DprState,
    open: EntryModel,
    pending: Seq<EntryModel>,
)
    requires
        0 <= i <= b.len(),
    ensures
        starts_with_entries(
            dpr_after_entry(tree, b, i, source, stack, over, st, open, pending).state.entries,
            st.entries,
        ),
    decreases b.len() - i, 1int,
{
    let all = dpr_after_entry(tree, b, i, source, stack, over, st, open, pending).state.entries;
    if i >= b.len() {
    } else if b[i] == COMMA {
        let next = state_with_entry(st, closed_entry(open, Some(COMMA), i), pending);
        lemma_fragment_keeps(tree, b, i + 1, source, stack, over, next);
        assert forall|j: int| 0 <= j < st.entries.len() implies all[j] == #[trigger] st.entries[j] by {
            assert(next.entries[j] == st.entries[j]);
        }
    } else if b[i] == SEMICOLON {
    } else {
        lemma_include_directive_bounds(b, i);
        lemma_comment_or_string_end_bounds(b, i);
        match include_directive(b, i) {
            Some((name, end)) => {
                let got = include_entries(
                    tree,
                    name,
                    anchor_at(over, i),
                    source,
                    stack,
                    st.warnings,
                    st.flags,
                );
                lemma_after_keeps(
                    tree,
                    b,
                    end,
                    source,
                    stack,
                    over,
                    DprState { entries: st.entries, warnings: got.warnings, flags: got.flags },
                    open,
                    pending + got.entries,
                );
            },
            None => match comment_or_string_end(b, i) {
                Some(e) => {
                    lemma_after_keeps(tree, b, e, source, stack, over, st, open, pending);
                },
                None => {
                    lemma_after_keeps(tree, b, i + 1, source, stack, over, st, open, pending);
                },
            },
        }
    }
}

/// The entry that waits for its delimiter comes right behind the entries
/// that were read, and starts where it was opened.
pub proof fn lemma_after_opens(
    tree: SourceTree,
    b: Seq<u8>,
    i: int,
    source: Seq<char>,
    stack: Seq<Seq<char>>,
    over: Option<int>,
    st: DprState,
    open: EntryModel,
    pending: Seq<EntryModel>,
)
    requires
        0 <= i <= b.len(),
    ensures
        ({
            let all = dpr_after_entry(tree, b, i, source, stack, over, st, open, pending).state.entries;
            all.len() > st.entries.len() && all[st.entries.len() as int].start == open.start
        }),
    decreases b.len() - i,
{
    let n = st.entries.len() as int;
    if i >= b.len() {
        let next = state_with_entry(st, closed_entry(open, None, i), pending);
        assert(next.entries[n] == closed_entry(open, None, i));
    } else if b[i] == COMMA {
        let next = state_with_entry(st, closed_entry(open, Some(COMMA), i), pending);
        assert(next.entries[n] == closed_entry(open, Some(COMMA), i));
        lemma_fragment_keeps(tree, b, i + 1, source, stack, over, next);
    } else if b[i] == SEMICOLON {
        let next = state_with_entry(st, closed_entry(open, Some(SEMICOLON), i), pending);
        assert(next.entries[n] == closed_entry(open, Some(SEMICOLON), i));
    } else {
        lemma_include_directive_bounds(b, i);
        lemma_comment_or_string_end_bounds(b, i);
        match include_directive(b, i) {
            Some((name, end)) => {
                let got = include_entries(
                    tree,
                    name,
                    anchor_at(over, i),
                    source,
                    stack,
                    st.warnings,
                    st.flags,
                );
                lemma_after_opens(
                    tree,
                    b,
                    end,
                    source,
                    stack,
                    over,
                    DprState { entries: st.entries, warnings: got.warnings, flags: got.flags },
                    open,
                    pending + got.entries,
                );
            },
            None => match comment_or_string_end(b, i) {
                Some(e) => {
                    lemma_after_opens(tree, b, e, source, stack, over, st, open, pending);
                },
                None => {
                    lemma_after_opens(tree, b, i + 1, source, stack, over, st, open, pending);
                },
            },
        }
    }
}

/// The place behind the comma of an entry: one where an entry may start,
/// with the entries of the clause up to that entry and what include
/// files gave before its comma.
pub open spec fn place_behind_comma(point: Option<Point>, all: Seq<EntryModel>, k: int, p: int) -> bool {
    match point {
        Some(Point::Start(st)) => {
            &&& starts_with_entries(all, st.entries)
            &&& st.entries.len() > k
            &&& forall|j: int| k < j < st.entries.len() ==> (#[trigger] st.entries[j]).start <= p
        },
        _ => false,
    }
}

/// Entries that include files gave so far: none has an offset for its
/// delimiter, and each stands for a directive before `i`.
pub open spec fn given_before(pending: Seq<EntryModel>, i: int) -> bool {
    forall|j: int|
        0 <= j < pending.len() ==> (#[trigger] pending[j]).delimiter_pos is None && pending[j].start
            < i
}

/// The reading of a clause comes by the place behind the comma of each
/// of its entries that has one.
pub proof fn lemma_start_finds(
    tree: SourceTree,
    b: Seq<u8>,
    i: int,
    source: Seq<char>,
    stack: Seq<Seq<char>>,
    st: DprState,
    k: int,
    p: int,
)
    requires
        0 <= i <= b.len(),
        ({
            let all = dpr_fragment(tree, b, i, source, stack, None, st).state.entries;
            &&& st.entries.len() <= k < all.len()
            &&& all[k].delimiter_pos == Some(p)
            &&& all[k].delimiter == Some(COMMA)
        }),
    ensures
        i <= p,
        place_behind_comma(
            reach_start(tree, b, i, source, stack, st, p + 1),
            dpr_fragment(tree, b, i, source, stack, None, st).state.entries,
            k,
            p,
        ),
    decreases b.len() - i, 0int,
{
    let all = dpr_fragment(tree, b, i, source, stack, None, st).state.entries;
    if i < b.len() {
        if blank(b[i]) {
            lemma_start_finds(tree, b, i + 1, source, stack, st, k, p);
        } else {
            lemma_include_directive_bounds(b, i);
            lemma_comment_or_string_end_bounds(b, i);
            match include_directive(b, i) {
                Some((name, end)) => {
                    let got = include_entries(
                        tree,
                        name,
                        i,
                        source,
                        stack,
                        st.warnings,
                        st.flags,
                    );
                    let next = DprState {
                        entries: st.entries + got.entries,
                        warnings: got.warnings,
                        flags: got.flags,
                    };
                    lemma_include_entries_anchored(
                        tree,
                        name,
                        i,
                        source,
                        stack,
                        st.warnings,
                        st.flags,
                    );
                    lemma_fragment_keeps(tree, b, end, source, stack, None, next);
                    if k < next.entries.len() {
                        assert(all[k] == next.entries[k]);
                        assert(next.entries[k] == got.entries[k - st.entries.len()]);
                        assert(false);
                    }
                    lemma_start_finds(tree, b, end, source, stack, next, k, p);
                },
                None => match comment_or_string_end(b, i) {
                    Some(e) => {
                        lemma_start_finds(tree, b, e, source, stack, st, k, p);
                    },
                    None => if b[i] == SEMICOLON {
                    } else if !ident_start(b[i]) {
                        lemma_start_finds(tree, b, i + 1, source, stack, st, k, p);
                    } else {
                        let next = ident_end(b, i + 1);
                        let (in_path, after) = declared_path(b, next);
                        lemma_ident_end_bounds(b, i + 1);
                        lemma_declared_path_bounds(b, next);
                        lemma_behind_finds(
                            tree,
                            b,
                            after,
                            source,
                            stack,
                            DprState {
                                entries: st.entries,
                                warnings: st.warnings,
                                flags: flags_with_path(st.flags, in_path),
                            },
                            EntryModel {
                                name: ident_text(b, i),
                                in_path,
                                start: i,
                                delimiter: None,
                                delimiter_pos: None,
                                from_include: false,
                            },
                            Seq::empty(),
                            k,
                            p,
                        );
                    },
                },
            }
        }
    }
}

pub proof fn lemma_behind_finds(
    tree: SourceTree,
    b: Seq<u8>,
    i: int,
    source: Seq<char>,
    stack: Seq<Seq<char>>,
    st: DprState,
    open: EntryModel,
    pending: Seq<EntryModel>,
    k: int,
    p: int,
)
    requires
        0 <= i <= b.len(),
        !open.from_include,
        open.start < i,
        given_before(pending, i),
        ({
            let all = dpr_after_entry(
                tree,
                b,
                i,
                source,
                stack,
                None,
                st,
                open,
                pending,
            ).state.entries;
            &&& st.entries.len() <= k < all.len()
            &&& all[k].delimiter_pos == Some(p)
            &&& all[k].delimiter == Some(COMMA)
        }),
    ensures
        i <= p,
        place_behind_comma(
            reach_behind(tree, b, i, source, stack, st, open, pending, p + 1),
            dpr_after_entry(tree, b, i, source, stack, None, st, open, pending).state.entries,
            k,
            p,
        ),
    decreases b.len() - i, 1int,
{
    let all = dpr_after_entry(tree, b, i, source, stack, None, st, open, pending).state.entries;
    let base = st.entries.len() as int;
    if i >= b.len() {
        let end = state_with_entry(st, closed_entry(open, None, i), pending);
        if k > base {
            assert(end.entries[k] == pending[k - base - 1]);
        }
    } else if b[i] == COMMA {
        let next = state_with_entry(st, closed_entry(open, Some(COMMA), i), pending);
        lemma_fragment_keeps(tree, b, i + 1, source, stack, None, next);
        if k == base {
            assert(all[k] == next.entries[k]);
            assert(p == i);
            assert forall|j: int| k < j < next.entries.len() implies (
            #[trigger] next.entries[j]).start <= p by {
                assert(next.entries[j] == pending[j - base - 1]);
            }
        } else if k < next.entries.len() {
            assert(all[k] == next.entries[k]);
            assert(next.entries[k] == pending[k - base - 1]);
        } else {
            lemma_start_finds(tree, b, i + 1, source, stack, next, k, p);
        }
    } else if b[i] == SEMICOLON {
        let end = state_with_entry(st, closed_entry(open, Some(SEMICOLON), i), pending);
        if k > base {
            assert(end.entries[k] == pending[k - base - 1]);
        }
    } else {
        lemma_include_directive_bounds(b, i);
        lemma_comment_or_string_end_bounds(b, i);
        match include_directive(b, i) {
            Some((name, end)) => {
                let got = include_entries(tree, name, i, source, stack, st.warnings, st.flags);
                lemma_include_entries_anchored(
                    tree,
                    name,
                    i,
                    source,
                    stack,
                    st.warnings,
                    st.flags,
                );
                let more = pending + got.entries;
                assert(given_before(more, end)) by {
                    assert forall|j: int| 0 <= j < more.len() implies (
                    #[trigger] more[j]).delimiter_pos is None && more[j].start < end by {
                        if j < pending.len() {
                            assert(more[j] == pending[j]);
                        } else {
                            assert(more[j] == got.entries[j - pending.len()]);
                        }
                    }
                }
                lemma_behind_finds(
                    tree,
                    b,
                    end,
                    source,
                    stack,
                    DprState { entries: st.entries, warnings: got.warnings, flags: got.flags },
                    open,
                    more,
                    k,
                    p,
                );
            },
            None => match comment_or_string_end(b, i) {
                Some(e) => {
                    assert(given_before(pending, e));
                    lemma_behind_finds(tree, b, e, source, stack, st, open, pending, k, p);
                },
                None => {
                    assert(given_before(pending, i + 1));
                    lemma_behind_finds(tree, b, i + 1, source, stack, st, open, pending, k, p);
                },
            },
        }
    }
}

/// A reading that ends at a semicolon comes by that semicolon.
pub proof fn lemma_start_reaches_end(
    tree: SourceTree,
    b: Seq<u8>,
    i: int,
    source: Seq<char>,
    stack: Seq<Seq<char>>,
    st: DprState,
)
    requires
        0 <= i <= b.len(),
        dpr_fragment(tree, b, i, source, stack, None, st).semicolon is Some,
    ensures
        reach_start(
            tree,
            b,
            i,
            source,
            stack,
            st,
            dpr_fragment(tree, b, i, source, stack, None, st).semicolon.unwrap(),
        ) is Some,
        i <= dpr_fragment(tree, b, i, source, stack, None, st).semicolon.unwrap(),
    decreases b.len() - i, 0int,
{
    if i < b.len() {
        if blank(b[i]) {
            lemma_start_reaches_end(tree, b, i + 1, source, stack, st);
        } else {
            lemma_include_directive_bounds(b, i);
            lemma_comment_or_string_end_bounds(b, i);
            match include_directive(b, i) {
                Some((name, end)) => {
                    let got = include_entries(
                        tree,
                        name,
                        i,
                        source,
                        stack,
                        st.warnings,
                        st.flags,
                    );
                    lemma_start_reaches_end(
                        tree,
                        b,
                        end,
                        source,
                        stack,
                        DprState {
                            entries: st.entries + got.entries,
                            warnings: got.warnings,
                            flags: got.flags,
                        },
                    );
                },
                None => match comment_or_string_end(b, i) {
                    Some(e) => {
                        lemma_start_reaches_end(tree, b, e, source, stack, st);
                    },
                    None => if b[i] == SEMICOLON {
                    } else if !ident_start(b[i]) {
                        lemma_start_reaches_end(tree, b, i + 1, source, stack, st);
                    } else {
                        let next = ident_end(b, i + 1);
                        let (in_path, after) = declared_path(b, next);
                        lemma_ident_end_bounds(b, i + 1);
                        lemma_declared_path_bounds(b, next);
                        lemma_behind_reaches_end(
                            tree,
                            b,
                            after,
                            source,
                            stack,
                            DprState {
                                entries: st.entries,
                                warnings: st.warnings,
                                flags: flags_with_path(st.flags, in_path),
                            },
                            EntryModel {
                                name: ident_text(b, i),
                                in_path,
                                start: i,
                                delimiter: None,
                                delimiter_pos: None,
                                from_include: false,
                            },
                            Seq::empty(),
                        );
                    },
                },
            }
        }
    }
}

pub proof fn lemma_behind_reaches_end(
    tree: SourceTree,
    b: Seq<u8>,
    i: int,
    source: Seq<char>,
    stack: Seq<Seq<char>>,
    st: DprState,
    open: EntryModel,
    pending: Seq<EntryModel>,
)
    requires
        0 <= i <= b.len(),
        dpr_after_entry(tree, b, i, source, stack, None, st, open, pending).semicolon is Some,
    ensures
        reach_behind(
            tree,
            b,
            i,
            source,
            stack,
            st,
            open,
            pending,
            dpr_after_entry(tree, b, i, source, stack, None, st, open, pending).semicolon.unwrap(),
        ) is Some,
        i <= dpr_after_entry(
            tree,
            b,
            i,
            source,
            stack,
            None,
            st,
            open,
            pending,
        ).semicolon.unwrap(),
    decreases b.len() - i, 1int,
{
    if i >= b.len() {
    } else if b[i] == COMMA {
        lemma_start_reaches_end(
            tree,
            b,
            i + 1,
            source,
            stack,
            state_with_entry(st, closed_entry(open, Some(COMMA), i), pending),
        );
    } else if b[i] == SEMICOLON {
    } else {
        lemma_include_directive_bounds(b, i);
        lemma_comment_or_string_end_bounds(b, i);
        match include_directive(b, i) {
            Some((name, end)) => {
                let got = include_entries(tree, name, i, source, stack, st.warnings, st.flags);
                lemma_behind_reaches_end(
                    tree,
                    b,
                    end,
                    source,
                    stack,
                    DprState { entries: st.entries, warnings: got.warnings, flags: got.flags },
                    open,
                    pending + got.entries,
                );
            },
            None => match comment_or_string_end(b, i) {
                Some(e) => {
                    lemma_behind_reaches_end(tree, b, e, source, stack, st, open, pending);
                },
                None => {
                    lemma_behind_reaches_end(tree, b, i + 1, source, stack, st, open, pending);
                },
            },
        }
    }
}

} // verus!
